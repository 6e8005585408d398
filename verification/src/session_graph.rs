//! The session graph of a set of nodes: the nodes newest first, grouped by
//! session, the sessions ordered by their newest node, and the edges that
//! join sessions in time order, sessions to their nodes, each node to the
//! next older one of its session, and nodes to the parents they name.
//! Edges that rest on floating-point similarity are drawn by the caller.
use vstd::prelude::*;
use crate::ranking::{
    is_ranked_list, key_view, lemma_ranks_asymmetric, rank_all, ranks_before,
};
use crate::text::{chars_eq, chars_of, lemma_text_lt_asymmetric, string_of, text_lt};

verus! {

/// A node as the graph reads it: its session, its timestamp (microseconds
/// since the Unix epoch), its graph id, and the graph id its parent
/// reference names, if any.
#[derive(Debug, Clone)]
pub struct GraphNode {
    pub session_id: String,
    pub timestamp: i64,
    pub graph_id: String,
    pub parent_id: Option<String>,
}

/// A session of the graph: the positions of its nodes, newest first, and
/// the timestamp of the newest.
#[derive(Debug, Clone)]
pub struct SessionGroup {
    pub session_id: String,
    pub last_modified: i64,
    pub members: Vec<usize>,
}

/// An edge of the graph; sessions are named by their place in the graph's
/// list, nodes by their position in the input.
#[derive(Debug, Clone, Copy, PartialEq, Eq, Structural)]
pub enum GraphEdge {
    /// From a session to the next older one.
    Timeline { from: usize, to: usize },
    /// From a session to its `index`-th node.
    Membership { group: usize, index: usize, node: usize },
    /// From a session's `index`-th node to the next older node of it.
    NodeTimeline { group: usize, index: usize, from: usize, to: usize },
    /// From a session's `index`-th node to the node its parent reference
    /// names.
    Lineage { group: usize, index: usize, node: usize },
}

/// The graph: the node positions newest first, the sessions, the edges
/// between sessions, and the edges of each session in turn.
#[derive(Debug, Clone)]
pub struct SessionGraph {
    pub order: Vec<usize>,
    pub groups: Vec<SessionGroup>,
    pub timeline: Vec<GraphEdge>,
    pub session_edges: Vec<GraphEdge>,
}

/// The sessions of the nodes, in order.
pub open spec fn sessions_of(nodes: Seq<GraphNode>) -> Seq<Seq<char>> {
    nodes.map_values(|n: GraphNode| n.session_id@)
}

/// The sessions of the groups, in order.
pub open spec fn group_sessions(groups: Seq<SessionGroup>) -> Seq<Seq<char>> {
    groups.map_values(|g: SessionGroup| g.session_id@)
}

/// The texts of the strings, in order.
pub open spec fn texts(xs: Seq<String>) -> Seq<Seq<char>> {
    xs.map_values(|x: String| x@)
}

/// Nodes rank newest first; equal timestamps keep their input order.
pub open spec fn newest_keys(nodes: Seq<GraphNode>) -> Seq<(int, Seq<char>)> {
    Seq::new(nodes.len(), |i: int| (-(nodes[i].timestamp as int), Seq::<char>::empty()))
}

/// The positions of `order` whose node is in the session, in order.
pub open spec fn members_in(order: Seq<usize>, nodes: Seq<GraphNode>, session_id: Seq<char>) -> Seq<usize>
    decreases order.len(),
{
    if order.len() == 0 {
        Seq::empty()
    } else {
        let p = members_in(order.drop_last(), nodes, session_id);
        if nodes[order.last() as int].session_id@ == session_id {
            p.push(order.last())
        } else {
            p
        }
    }
}

/// Session `a` comes before `b`: its newest node is newer, or as new and
/// its id sorts first.
pub open spec fn group_before(a: SessionGroup, b: SessionGroup) -> bool {
    ||| a.last_modified > b.last_modified
    ||| a.last_modified == b.last_modified && text_lt(a.session_id@, b.session_id@)
}

/// The node at `p` names a parent that is a node of the graph.
pub open spec fn has_lineage(nodes: Seq<GraphNode>, p: int) -> bool {
    match nodes[p].parent_id {
        Some(x) => exists|q: int| 0 <= q < nodes.len() && (#[trigger] nodes[q]).graph_id@ == x@,
        None => false,
    }
}

/// The edges from the `i`-th node of session `g`: its membership, the step
/// to the next older node where there is one, and its lineage where it
/// names a parent in the graph.
pub open spec fn edges_at(nodes: Seq<GraphNode>, g: usize, members: Seq<usize>, i: int) -> Seq<GraphEdge> {
    let m = members[i];
    seq![GraphEdge::Membership { group: g, index: i as usize, node: m }] + (if i + 1 < members.len() {
        seq![GraphEdge::NodeTimeline { group: g, index: i as usize, from: m, to: members[i + 1] }]
    } else {
        Seq::empty()
    }) + (if has_lineage(nodes, m as int) {
        seq![GraphEdge::Lineage { group: g, index: i as usize, node: m }]
    } else {
        Seq::empty()
    })
}

/// The edges of the first `upto` nodes of session `g`.
pub open spec fn group_edges(nodes: Seq<GraphNode>, g: usize, members: Seq<usize>, upto: int) -> Seq<GraphEdge>
    decreases upto,
{
    if upto <= 0 {
        Seq::empty()
    } else {
        group_edges(nodes, g, members, upto - 1) + edges_at(nodes, g, members, upto - 1)
    }
}

/// The edges of the first `upto` sessions, session by session.
pub open spec fn session_edges_upto(nodes: Seq<GraphNode>, groups: Seq<SessionGroup>, upto: int) -> Seq<GraphEdge>
    decreases upto,
{
    if upto <= 0 {
        Seq::empty()
    } else {
        session_edges_upto(nodes, groups, upto - 1) + group_edges(
            nodes,
            (upto - 1) as usize,
            groups[upto - 1].members@,
            groups[upto - 1].members@.len() as int,
        )
    }
}

/// Each session to the next: `0 -> 1`, `1 -> 2`, and so on.
pub open spec fn timeline_edges(n: int) -> Seq<GraphEdge> {
    Seq::new(
        if n > 0 { (n - 1) as nat } else { 0 },
        |i: int| GraphEdge::Timeline { from: i as usize, to: (i + 1) as usize },
    )
}

/// `r` is the session graph of `nodes`: its order ranks every node newest
/// first; its sessions are those of the nodes, each once, newest first (by
/// their newest node, then by id), each with its nodes in that order; and
/// its edges are those described above.
pub open spec fn is_session_graph(nodes: Seq<GraphNode>, r: SessionGraph) -> bool {
    let groups = r.groups@;
    &&& is_ranked_list(newest_keys(nodes), r.order@)
    &&& forall|g: int| 0 <= g < groups.len() ==> sessions_of(nodes).contains(#[trigger] group_sessions(groups)[g])
    &&& forall|p: int| 0 <= p < nodes.len() ==> group_sessions(groups).contains(#[trigger] sessions_of(nodes)[p])
    &&& forall|g: int, h: int| 0 <= g < h < groups.len() ==> group_before(groups[g], groups[h])
    &&& forall|g: int|
        0 <= g < groups.len() ==> {
            &&& (#[trigger] groups[g]).members@ == members_in(r.order@, nodes, groups[g].session_id@)
            &&& groups[g].members@.len() > 0
            &&& groups[g].last_modified == nodes[groups[g].members@[0] as int].timestamp
        }
    &&& r.timeline@ == timeline_edges(groups.len() as int)
    &&& r.session_edges@ == session_edges_upto(nodes, groups, groups.len() as int)
}

proof fn lemma_members_in(order: Seq<usize>, nodes: Seq<GraphNode>, session_id: Seq<char>)
    requires
        forall|a: int| 0 <= a < order.len() ==> (#[trigger] order[a] as int) < nodes.len(),
    ensures
        forall|p: usize|
            #[trigger] members_in(order, nodes, session_id).contains(p) <==> (order.contains(p)
                && nodes[p as int].session_id@ == session_id),
    decreases order.len(),
{
    if order.len() > 0 {
        let d = order.drop_last();
        assert forall|a: int| 0 <= a < d.len() implies (#[trigger] d[a] as int) < nodes.len() by {
            assert(d[a] == order[a]);
        }
        lemma_members_in(d, nodes, session_id);
        assert forall|p: usize| #[trigger] order.contains(p) <==> (d.contains(p) || order.last() == p) by {
            if order.contains(p) {
                let a = choose|a: int| 0 <= a < order.len() && order[a] == p;
                if a < order.len() - 1 {
                    assert(d[a] == p);
                }
            }
            if d.contains(p) {
                let a = choose|a: int| 0 <= a < d.len() && d[a] == p;
                assert(order[a] == p);
            }
            if order.last() == p {
                assert(order[order.len() - 1] == p);
            }
        }
        assert(order[order.len() - 1] == order.last());
        let m = members_in(d, nodes, session_id);
        assert forall|p: usize|
            #[trigger] members_in(order, nodes, session_id).contains(p) <==> (order.contains(p)
                && nodes[p as int].session_id@ == session_id) by {
            if nodes[order.last() as int].session_id@ == session_id {
                assert(members_in(order, nodes, session_id) == m.push(order.last()));
                if m.push(order.last()).contains(p) {
                    let a = choose|a: int| 0 <= a < m.push(order.last()).len() && m.push(order.last())[a] == p;
                    if a < m.len() {
                        assert(m[a] == p);
                    }
                }
                if m.contains(p) {
                    let a = choose|a: int| 0 <= a < m.len() && m[a] == p;
                    assert(m.push(order.last())[a] == p);
                }
                assert(m.push(order.last())[m.len() as int] == order.last());
            }
        }
    }
}

/// Whether the node at `p` names a parent that is a node of the graph.
fn lineage_exec(nodes: &Vec<GraphNode>, p: usize) -> (r: bool)
    requires
        p < nodes@.len(),
    ensures
        r == has_lineage(nodes@, p as int),
{
    match &nodes[p].parent_id {
        None => false,
        Some(x) => {
            let xv = chars_of(x.as_str());
            let mut q: usize = 0;
            while q < nodes.len()
                invariant
                    q <= nodes@.len(),
                    nodes@[p as int].parent_id == Some(*x),
                    xv@ == x@,
                    forall|j: int| 0 <= j < q ==> (#[trigger] nodes@[j]).graph_id@ != x@,
                decreases nodes@.len() - q,
            {
                if chars_eq(&chars_of(nodes[q].graph_id.as_str()), &xv) {
                    return true;
                }
                q = q + 1;
            }
            false
        },
    }
}


/// The positions of the nodes, newest first.
fn newest_order(nodes: &Vec<GraphNode>) -> (r: Vec<usize>)
    ensures
        is_ranked_list(newest_keys(nodes@), r@),
{
    let mut keys: Vec<(i128, Vec<char>)> = Vec::new();
    let mut i: usize = 0;
    while i < nodes.len()
        invariant
            i <= nodes@.len(),
            keys@.len() == i,
            forall|j: int| 0 <= j < i ==> #[trigger] key_view(keys@)[j] == newest_keys(nodes@)[j],
        decreases nodes@.len() - i,
    {
        let ghost kb = keys@;
        keys.push((-(nodes[i].timestamp as i128), Vec::new()));
        proof {
            assert forall|j: int| 0 <= j < i + 1 implies #[trigger] key_view(keys@)[j] == newest_keys(nodes@)[j] by {
                if j < i {
                    assert(key_view(keys@)[j] == key_view(kb)[j]);
                } else {
                    assert(key_view(keys@)[j].1 =~= Seq::<char>::empty());
                }
            }
        }
        i = i + 1;
    }
    assert(key_view(keys@) =~= newest_keys(nodes@));
    rank_all(&keys)
}

/// The nodes of `order` that are in the session, in order.
fn members_of(nodes: &Vec<GraphNode>, order: &Vec<usize>, session_id: &Vec<char>) -> (r: Vec<usize>)
    requires
        forall|a: int| 0 <= a < order@.len() ==> (#[trigger] order@[a] as int) < nodes@.len(),
    ensures
        r@ == members_in(order@, nodes@, session_id@),
{
    let mut r: Vec<usize> = Vec::new();
    let mut j: usize = 0;
    while j < order.len()
        invariant
            j <= order@.len(),
            forall|a: int| 0 <= a < order@.len() ==> (#[trigger] order@[a] as int) < nodes@.len(),
            r@ == members_in(order@.take(j as int), nodes@, session_id@),
        decreases order@.len() - j,
    {
        proof {
            assert(order@.take(j + 1).drop_last() =~= order@.take(j as int));
            assert(order@.take(j + 1).last() == order@[j as int]);
        }
        let p = order[j];
        assert((order@[j as int] as int) < nodes@.len());
        if chars_eq(&chars_of(nodes[p].session_id.as_str()), session_id) {
            r.push(p);
        }
        j = j + 1;
    }
    assert(order@.take(order@.len() as int) =~= order@);
    r
}

/// The sessions of the nodes, each once, in the order `order` first meets
/// them.
fn distinct_sessions(nodes: &Vec<GraphNode>, order: &Vec<usize>) -> (r: Vec<String>)
    requires
        is_ranked_list(newest_keys(nodes@), order@),
    ensures
        forall|a: int, b: int| 0 <= a < b < r@.len() ==> r@[a]@ != r@[b]@,
        forall|x: int| 0 <= x < r@.len() ==> sessions_of(nodes@).contains(#[trigger] texts(r@)[x]),
        forall|p: int| 0 <= p < nodes@.len() ==> texts(r@).contains(#[trigger] sessions_of(nodes@)[p]),
{
    let ghost keys = newest_keys(nodes@);
    let ghost ns = sessions_of(nodes@);
    let mut r: Vec<String> = Vec::new();
    let mut j: usize = 0;
    while j < order.len()
        invariant
            j <= order@.len(),
            keys == newest_keys(nodes@),
            ns == sessions_of(nodes@),
            is_ranked_list(keys, order@),
            keys.len() == nodes@.len(),
            forall|a: int, b: int| 0 <= a < b < r@.len() ==> r@[a]@ != r@[b]@,
            forall|x: int| 0 <= x < r@.len() ==> ns.contains(#[trigger] texts(r@)[x]),
            forall|a: int| 0 <= a < j ==> texts(r@).contains(#[trigger] ns[order@[a] as int]),
        decreases order@.len() - j,
    {
        let p = order[j];
        assert((order@[j as int] as int) < keys.len());
        let s = chars_of(nodes[p].session_id.as_str());
        assert(ns[p as int] == s@);
        let mut seen = false;
        let mut m: usize = 0;
        while m < r.len()
            invariant
                m <= r@.len(),
                seen == exists|x: int| 0 <= x < m && (#[trigger] r@[x])@ == s@,
            decreases r@.len() - m,
        {
            if chars_eq(&chars_of(r[m].as_str()), &s) {
                seen = true;
            }
            m = m + 1;
        }
        let ghost before = r@;
        if !seen {
            r.push(string_of(nodes[p].session_id.as_str()));
            proof {
                assert(texts(r@) =~= texts(before).push(s@));
                assert forall|a: int, b: int| 0 <= a < b < r@.len() implies r@[a]@ != r@[b]@ by {
                    if b == before.len() {
                        assert(r@[a] == before[a]);
                        assert(texts(before)[a] == before[a]@);
                    } else {
                        assert(r@[a] == before[a] && r@[b] == before[b]);
                    }
                }
                assert forall|x: int| 0 <= x < r@.len() implies ns.contains(#[trigger] texts(r@)[x]) by {
                    if x < before.len() {
                        assert(texts(r@)[x] == texts(before)[x]);
                    } else {
                        assert(ns[p as int] == texts(r@)[x]);
                    }
                }
                assert forall|a: int| 0 <= a < j + 1 implies texts(r@).contains(#[trigger] ns[order@[a] as int]) by {
                    if a < j {
                        let x = choose|x: int| 0 <= x < texts(before).len() && texts(before)[x] == ns[order@[a] as int];
                        assert(texts(r@)[x] == texts(before)[x]);
                    } else {
                        assert(texts(r@)[before.len() as int] == s@);
                    }
                }
            }
        } else {
            proof {
                let x = choose|x: int| 0 <= x < r@.len() && (#[trigger] r@[x])@ == s@;
                assert(texts(r@)[x] == s@);
                assert forall|a: int| 0 <= a < j + 1 implies texts(r@).contains(#[trigger] ns[order@[a] as int]) by {
                    if a == j {
                        assert(texts(r@)[x] == ns[order@[a] as int]);
                    }
                }
            }
        }
        j = j + 1;
    }
    proof {
        assert forall|q: int| 0 <= q < nodes@.len() implies texts(r@).contains(#[trigger] ns[q]) by {
            let qu = q as usize;
            assert(order@.contains(qu));
            let a = choose|a: int| 0 <= a < order@.len() && order@[a] == qu;
            assert(ns[order@[a] as int] == ns[q]);
        }
    }
    r
}

/// The session has nodes in `order`, and `t` is the timestamp of the
/// first of them.
spec fn newest_of(order: Seq<usize>, nodes: Seq<GraphNode>, session_id: Seq<char>, t: i64) -> bool {
    members_in(order, nodes, session_id).len() > 0 && t == nodes[members_in(order, nodes, session_id)[0] as int].timestamp
}

/// The timeline edges between `n` sessions.
fn timeline_of(n: usize) -> (r: Vec<GraphEdge>)
    ensures
        r@ == timeline_edges(n as int),
{
    let mut r: Vec<GraphEdge> = Vec::new();
    if n == 0 {
        assert(r@ =~= timeline_edges(0));
        return r;
    }
    let mut i: usize = 0;
    while i + 1 < n
        invariant
            n >= 1,
            i + 1 <= n,
            r@ =~= timeline_edges(i as int + 1),
        decreases n - i,
    {
        r.push(GraphEdge::Timeline { from: i, to: i + 1 });
        i = i + 1;
        assert(r@ =~= timeline_edges(i as int + 1));
    }
    r
}

/// The edges of each session in turn.
fn session_edges_of(nodes: &Vec<GraphNode>, groups: &Vec<SessionGroup>) -> (r: Vec<GraphEdge>)
    requires
        forall|g: int, i: int|
            0 <= g < groups@.len() && 0 <= i < groups@[g].members@.len() ==> (#[trigger] groups@[g].members@[i] as int)
                < nodes@.len(),
    ensures
        r@ == session_edges_upto(nodes@, groups@, groups@.len() as int),
{
    let mut r: Vec<GraphEdge> = Vec::new();
    let mut g: usize = 0;
    while g < groups.len()
        invariant
            g <= groups@.len(),
            forall|h: int, i: int|
                0 <= h < groups@.len() && 0 <= i < groups@[h].members@.len() ==> (#[trigger] groups@[h].members@[i] as int)
                    < nodes@.len(),
            r@ == session_edges_upto(nodes@, groups@, g as int),
        decreases groups@.len() - g,
    {
        let members = &groups[g].members;
        let ghost base = r@;
        let mut i: usize = 0;
        while i < members.len()
            invariant
                i <= members@.len(),
                g < groups@.len(),
                *members == groups@[g as int].members,
                forall|x: int| 0 <= x < members@.len() ==> (#[trigger] members@[x] as int) < nodes@.len(),
                r@ == base + group_edges(nodes@, g, members@, i as int),
            decreases members@.len() - i,
        {
            let m = members[i];
            assert((members@[i as int] as int) < nodes@.len());
            let ghost before = r@;
            r.push(GraphEdge::Membership { group: g, index: i, node: m });
            let ghost step1 = r@;
            if i + 1 < members.len() {
                r.push(GraphEdge::NodeTimeline { group: g, index: i, from: m, to: members[i + 1] });
            }
            let ghost step2 = r@;
            let lin = lineage_exec(nodes, m);
            if lin {
                r.push(GraphEdge::Lineage { group: g, index: i, node: m });
            }
            proof {
                let e = edges_at(nodes@, g, members@, i as int);
                let t = if i + 1 < members@.len() {
                    seq![GraphEdge::NodeTimeline { group: g, index: i, from: m, to: members@[i + 1] }]
                } else {
                    Seq::empty()
                };
                let l = if has_lineage(nodes@, m as int) {
                    seq![GraphEdge::Lineage { group: g, index: i, node: m }]
                } else {
                    Seq::empty()
                };
                assert(e == seq![GraphEdge::Membership { group: g, index: i, node: m }] + t + l);
                assert(step1 =~= before + seq![GraphEdge::Membership { group: g, index: i, node: m }]);
                assert(step2 =~= step1 + t);
                assert(r@ =~= step2 + l);
                assert(group_edges(nodes@, g, members@, i + 1) == group_edges(nodes@, g, members@, i as int) + e);
                assert(r@ =~= base + group_edges(nodes@, g, members@, i + 1));
            }
            i = i + 1;
        }
        proof {
            assert(session_edges_upto(nodes@, groups@, g + 1) == session_edges_upto(nodes@, groups@, g as int)
                + group_edges(nodes@, g, groups@[g as int].members@, groups@[g as int].members@.len() as int));
        }
        g = g + 1;
    }
    r
}

/// The session graph of the nodes: see `is_session_graph`.
pub fn session_graph(nodes: &Vec<GraphNode>) -> (r: SessionGraph)
    ensures
        is_session_graph(nodes@, r),
{
    let n = nodes.len();
    let order = newest_order(nodes);
    let ghost nk = newest_keys(nodes@);
    proof {
        assert(nk.len() == nodes@.len());
    }
    let sessions = distinct_sessions(nodes, &order);
    let ghost ts = texts(sessions@);
    let ghost ns = sessions_of(nodes@);
    let mut keys: Vec<(i128, Vec<char>)> = Vec::new();
    let mut lms: Vec<i64> = Vec::new();
    let mut k: usize = 0;
    while k < sessions.len()
        invariant
            k <= sessions@.len(),
            n == nodes@.len(),
            nk == newest_keys(nodes@),
            nk.len() == nodes@.len(),
            is_ranked_list(nk, order@),
            ts == texts(sessions@),
            ns == sessions_of(nodes@),
            forall|x: int| 0 <= x < sessions@.len() ==> ns.contains(#[trigger] ts[x]),
            keys@.len() == k,
            lms@.len() == k,
            forall|m: int| 0 <= m < k ==> #[trigger] key_view(keys@)[m] == (-(lms@[m] as int), ts[m]),
            forall|m: int| 0 <= m < k ==> #[trigger] newest_of(order@, nodes@, ts[m], lms@[m]),
        decreases sessions@.len() - k,
    {
        let sv = chars_of(sessions[k].as_str());
        assert(ts[k as int] == sv@);
        let members = members_of(nodes, &order, &sv);
        proof {
            lemma_members_in(order@, nodes@, sv@);
            assert(ns.contains(ts[k as int]));
            let p = choose|p: int| 0 <= p < ns.len() && ns[p] == ts[k as int];
            assert(ns[p] == nodes@[p].session_id@);
            let pu = p as usize;
            assert(order@.contains(pu));
            assert(nodes@[pu as int].session_id@ == sv@);
            assert(members_in(order@, nodes@, sv@).contains(pu));
            let c = choose|c: int| 0 <= c < members@.len() && members@[c] == pu;
            assert(members@.contains(members@[0]));
        }
        let first = members[0];
        let lm = nodes[first].timestamp;
        let ghost kb = keys@;
        let ghost lb = lms@;
        keys.push((-(lm as i128), sv));
        lms.push(lm);
        proof {
            assert forall|m: int| 0 <= m < k + 1 implies #[trigger] key_view(keys@)[m] == (-(lms@[m] as int), ts[m]) by {
                if m < k {
                    assert(key_view(keys@)[m] == key_view(kb)[m]);
                    assert(lms@[m] == lb[m]);
                }
            }
            assert(members@ == members_in(order@, nodes@, ts[k as int]));
            assert(members@.len() > 0);
            assert(lms@[k as int] == nodes@[members@[0] as int].timestamp);
            assert(newest_of(order@, nodes@, ts[k as int], lms@[k as int]));
            assert forall|m: int| 0 <= m < k + 1 implies #[trigger] newest_of(order@, nodes@, ts[m], lms@[m]) by {
                if m < k {
                    assert(lms@[m] == lb[m]);
                }
            }
        }
        k = k + 1;
    }
    let perm = rank_all(&keys);
    let ghost gk = key_view(keys@);
    let mut groups: Vec<SessionGroup> = Vec::new();
    let mut j: usize = 0;
    while j < perm.len()
        invariant
            j <= perm@.len(),
            nk == newest_keys(nodes@),
            nk.len() == nodes@.len(),
            is_ranked_list(nk, order@),
            gk == key_view(keys@),
            is_ranked_list(gk, perm@),
            gk.len() == sessions@.len(),
            ts == texts(sessions@),
            ts.len() == sessions@.len(),
            lms@.len() == sessions@.len(),
            groups@.len() == j,
            forall|g: int|
                0 <= g < j ==> {
                    &&& (#[trigger] groups@[g]).session_id@ == ts[perm@[g] as int]
                    &&& groups@[g].last_modified == lms@[perm@[g] as int]
                    &&& groups@[g].members@ == members_in(order@, nodes@, ts[perm@[g] as int])
                },
        decreases perm@.len() - j,
    {
        let x = perm[j];
        assert((perm@[j as int] as int) < gk.len());
        let sv = chars_of(sessions[x].as_str());
        assert(ts[x as int] == sv@);
        let members = members_of(nodes, &order, &sv);
        let ghost before = groups@;
        groups.push(SessionGroup { session_id: string_of(sessions[x].as_str()), last_modified: lms[x], members });
        proof {
            assert forall|g: int| 0 <= g < j + 1 implies {
                &&& (#[trigger] groups@[g]).session_id@ == ts[perm@[g] as int]
                &&& groups@[g].last_modified == lms@[perm@[g] as int]
                &&& groups@[g].members@ == members_in(order@, nodes@, ts[perm@[g] as int])
            } by {
                if g < j {
                    assert(groups@[g] == before[g]);
                }
            }
        }
        j = j + 1;
    }
    proof {
        let gs = group_sessions(groups@);
        assert forall|g: int| 0 <= g < groups@.len() implies ns.contains(#[trigger] gs[g]) by {
            assert(gs[g] == groups@[g].session_id@);
            assert((perm@[g] as int) < gk.len());
            assert(ns.contains(ts[perm@[g] as int]));
        }
        assert forall|p: int| 0 <= p < nodes@.len() implies gs.contains(#[trigger] ns[p]) by {
            assert(ts.contains(ns[p]));
            let x = choose|x: int| 0 <= x < ts.len() && ts[x] == ns[p];
            let xu = x as usize;
            assert(perm@.contains(xu));
            let g = choose|g: int| 0 <= g < perm@.len() && perm@[g] == xu;
            assert(gs[g] == groups@[g].session_id@);
        }
        assert forall|g: int, h: int| 0 <= g < h < groups@.len() implies group_before(groups@[g], groups@[h]) by {
            let pg = perm@[g] as int;
            let ph = perm@[h] as int;
            assert(ranks_before(gk, pg, ph));
            assert(gk[pg] == (-(lms@[pg] as int), ts[pg]));
            assert(gk[ph] == (-(lms@[ph] as int), ts[ph]));
            if ts[pg] == ts[ph] {
                if pg < ph {
                    assert(sessions@[pg]@ != sessions@[ph]@);
                } else if ph < pg {
                    assert(sessions@[ph]@ != sessions@[pg]@);
                } else {
                    lemma_ranks_asymmetric(gk, pg, pg);
                }
                assert(ts[pg] == sessions@[pg]@ && ts[ph] == sessions@[ph]@);
            }
        }
        assert forall|g: int| 0 <= g < groups@.len() implies {
            &&& (#[trigger] groups@[g]).members@ == members_in(order@, nodes@, groups@[g].session_id@)
            &&& groups@[g].members@.len() > 0
            &&& groups@[g].last_modified == nodes@[groups@[g].members@[0] as int].timestamp
        } by {
            assert((perm@[g] as int) < gk.len());
            assert(newest_of(order@, nodes@, ts[perm@[g] as int], lms@[perm@[g] as int]));
        }
        assert forall|g: int, i: int|
            0 <= g < groups@.len() && 0 <= i < groups@[g].members@.len() implies (#[trigger] groups@[g].members@[i] as int)
                < nodes@.len() by {
            let s = groups@[g].session_id@;
            lemma_members_in(order@, nodes@, s);
            let m = groups@[g].members@[i];
            assert(members_in(order@, nodes@, s).contains(m));
            assert(order@.contains(m));
            let a = choose|a: int| 0 <= a < order@.len() && order@[a] == m;
            assert((order@[a] as int) < nk.len());
        }
    }
    let timeline = timeline_of(groups.len());
    let session_edges = session_edges_of(nodes, &groups);
    SessionGraph { order, groups, timeline, session_edges }
}

/// Every node of the graph belongs to exactly one session group: the one
/// of its session.
pub proof fn lemma_node_in_one_group(nodes: Seq<GraphNode>, r: SessionGraph, p: usize)
    requires
        is_session_graph(nodes, r),
        p < nodes.len(),
    ensures
        exists|g: int| 0 <= g < r.groups@.len() && (#[trigger] r.groups@[g]).members@.contains(p),
        forall|g: int, h: int|
            0 <= g < r.groups@.len() && 0 <= h < r.groups@.len() && (#[trigger] r.groups@[g]).members@.contains(p)
                && (#[trigger] r.groups@[h]).members@.contains(p) ==> g == h,
{
    let groups = r.groups@;
    let order = r.order@;
    let nk = newest_keys(nodes);
    assert forall|a: int| 0 <= a < order.len() implies (#[trigger] order[a] as int) < nodes.len() by {
        assert((order[a] as int) < nk.len());
    }
    let s = nodes[p as int].session_id@;
    lemma_members_in(order, nodes, s);
    assert(sessions_of(nodes)[p as int] == s);
    assert(group_sessions(groups).contains(s));
    let g = choose|g: int| 0 <= g < group_sessions(groups).len() && group_sessions(groups)[g] == s;
    assert(groups[g].session_id@ == s);
    assert(order.contains(p));
    assert(groups[g].members@.contains(p));
    assert forall|a: int, b: int|
        0 <= a < groups.len() && 0 <= b < groups.len() && (#[trigger] groups[a]).members@.contains(p)
            && (#[trigger] groups[b]).members@.contains(p) implies a == b by {
        lemma_members_in(order, nodes, groups[a].session_id@);
        lemma_members_in(order, nodes, groups[b].session_id@);
        assert(groups[a].session_id@ == s && groups[b].session_id@ == s);
        lemma_text_lt_asymmetric(s, s);
        if a < b {
            assert(group_before(groups[a], groups[b]));
        } else if b < a {
            assert(group_before(groups[b], groups[a]));
        }
    }
}
} // verus!
