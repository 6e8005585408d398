//! The in-memory node store: nodes kept in insertion order under their sync
//! identity (session and sync key), a change feed read page by page with a
//! cursor, time-window queries, per-connector checkpoints and calibrations.
//! Times are whole microseconds since the Unix epoch.  What a node carries
//! besides the fields read here is held, untouched, in its payload.
use vstd::prelude::*;
use crate::rekey::{
    decide_scope, distinct_scopes, finish_rekey, lemma_dry_run_moves_nothing, moved_calibrations, moved_nodes, pair_views, prepare_rekey,
    rekey_target_of, scope_decided, unique_scopes, BatchRekeyResult, ScopeRekeyResult,
};
use crate::requests::strings_view;
use crate::store_keys::{derive_tenant_id_from_session, tenant_of_session};
use crate::tallies::NodeUpsertStatus;
use crate::upsert::effective_sync_key;
use crate::ranking::{first_page, is_first_page, key_view, ranks_before};
use crate::text::{
    chars_eq, chars_of, lemma_text_lt_asymmetric, lemma_text_lt_transitive, string_of, text_less, text_lt, trim,
};

verus! {

// ---------------------------------------------------------------------------
// Nodes

/// A stored node: the id of its row, its sync identity (session and sync
/// key), its timestamp, when its row was last written, and the node.
#[derive(Debug, Clone)]
pub struct StoredNode<T> {
    pub node_id: String,
    pub session_id: String,
    pub sync_key: String,
    pub timestamp: i64,
    pub updated_at: i64,
    pub node: T,
}

/// The text of an optional string slice.
pub open spec fn opt_text(o: Option<&str>) -> Option<Seq<char>> {
    match o {
        Some(s) => Some(s@),
        None => None,
    }
}

/// What is written for a node: its session, its own sync key and the
/// canonical one that stands in for a blank key, its timestamp, and the node.
#[derive(Debug, Clone)]
pub struct NodeWrite<T> {
    pub session_id: String,
    pub sync_key: String,
    pub canonical_sync_key: String,
    pub timestamp: i64,
    pub node: T,
}

/// Where a page of changes ends: the write time and sync key of its last
/// change.
#[derive(Debug, Clone)]
pub struct SyncCursor {
    pub updated_at: i64,
    pub sync_key: String,
}

/// A page of a session's changes: the positions of the changed rows in
/// order, the cursor after the last of them, and whether more follow.
#[derive(Debug, Clone)]
pub struct ChangePage {
    pub positions: Vec<usize>,
    pub next_cursor: Option<SyncCursor>,
    pub has_more: bool,
}

/// What storing a node did: its row's id, its sync key, the status, and its
/// row's write time.
#[derive(Debug, Clone)]
pub struct UpsertReport {
    pub node_id: String,
    pub sync_key: String,
    pub status: NodeUpsertStatus,
    pub updated_at: i64,
}

/// The nodes of the store, in the order they were first stored.
pub struct NodeTable<T> {
    rows: Vec<StoredNode<T>>,
}

impl<T> View for NodeTable<T> {
    type V = Seq<StoredNode<T>>;

    closed spec fn view(&self) -> Seq<StoredNode<T>> {
        self.rows@
    }
}

/// The row holds exactly these values.
pub open spec fn row_holds<T>(
    row: StoredNode<T>,
    node_id: Seq<char>,
    session_id: Seq<char>,
    sync_key: Seq<char>,
    timestamp: i64,
    updated_at: i64,
    node: T,
) -> bool {
    &&& row.node_id@ == node_id
    &&& row.session_id@ == session_id
    &&& row.sync_key@ == sync_key
    &&& row.timestamp == timestamp
    &&& row.updated_at == updated_at
    &&& row.node == node
}

/// The row has the sync identity `(session_id, sync_key)`.
pub open spec fn has_identity<T>(row: StoredNode<T>, session_id: Seq<char>, sync_key: Seq<char>) -> bool {
    row.session_id@ == session_id && row.sync_key@ == sync_key
}

/// No two rows share a sync identity.
pub open spec fn identities_unique<T>(rows: Seq<StoredNode<T>>) -> bool {
    forall|i: int, j: int|
        0 <= i < j < rows.len() ==> !has_identity(rows[i], rows[j].session_id@, rows[j].sync_key@)
}

/// The first row with the sync identity, if any.
pub open spec fn identity_position<T>(rows: Seq<StoredNode<T>>, session_id: Seq<char>, sync_key: Seq<char>) -> Option<int>
    decreases rows.len(),
{
    if rows.len() == 0 {
        None
    } else {
        match identity_position(rows.drop_last(), session_id, sync_key) {
            Some(i) => Some(i),
            None => if has_identity(rows.last(), session_id, sync_key) {
                Some(rows.len() - 1)
            } else {
                None
            },
        }
    }
}

proof fn lemma_identity_position<T>(rows: Seq<StoredNode<T>>, session_id: Seq<char>, sync_key: Seq<char>)
    ensures
        match identity_position(rows, session_id, sync_key) {
            Some(i) => 0 <= i < rows.len() && has_identity(rows[i], session_id, sync_key) && forall|j: int|
                0 <= j < i ==> !has_identity(#[trigger] rows[j], session_id, sync_key),
            None => forall|j: int| 0 <= j < rows.len() ==> !has_identity(#[trigger] rows[j], session_id, sync_key),
        },
    decreases rows.len(),
{
    if rows.len() > 0 {
        lemma_identity_position(rows.drop_last(), session_id, sync_key);
        assert forall|j: int| 0 <= j < rows.len() - 1 implies rows.drop_last()[j] == rows[j] by {}
    }
}

/// The sync key a write is stored under: its own, trimmed, where that is not
/// blank, else the canonical one.
pub open spec fn write_key<T>(w: NodeWrite<T>) -> Seq<char> {
    if trim(w.sync_key@).len() > 0 {
        trim(w.sync_key@)
    } else {
        w.canonical_sync_key@
    }
}


/// What storing `write` at time `now` does to the rows `old`, giving `new`
/// and the report `r`.  The write's sync key is `write_key`.  Where no row
/// has its identity, a row with a fresh 36-character id holding the node, written at
/// `now`, is appended: Created.  Where a row has it and `content_changed`,
/// that row takes the node, keeps its id and is written at `now`: Updated.
/// Otherwise nothing changes: Duplicate, with the row's id and write time.
/// Rows that had distinct identities keep them.
pub open spec fn upsert_effect<T>(
    old: Seq<StoredNode<T>>,
    new: Seq<StoredNode<T>>,
    write: NodeWrite<T>,
    content_changed: bool,
    r: UpsertReport,
    now: i64,
) -> bool {
    let k = write_key(write);
    &&& r.sync_key@ == k
    &&& match identity_position(old, write.session_id@, k) {
        None => {
            &&& r.status == NodeUpsertStatus::Created
            &&& r.node_id@.len() == 36
            &&& r.updated_at == now
            &&& new.len() == old.len() + 1
            &&& new.take(old.len() as int) == old
            &&& row_holds(new.last(), r.node_id@, write.session_id@, k, write.timestamp, now, write.node)
        },
        Some(i) => if content_changed {
            &&& r.status == NodeUpsertStatus::Updated
            &&& r.node_id@ == old[i].node_id@
            &&& r.updated_at == now
            &&& new.len() == old.len()
            &&& forall|j: int| 0 <= j < old.len() && j != i ==> new[j] == old[j]
            &&& row_holds(new[i], old[i].node_id@, write.session_id@, k, write.timestamp, now, write.node)
        } else {
            &&& r.status == NodeUpsertStatus::Duplicate
            &&& r.node_id@ == old[i].node_id@
            &&& r.updated_at == old[i].updated_at
            &&& new == old
        },
    }
    &&& identities_unique(old) ==> identities_unique(new)
}


/// The row was written after the cursor: later, or at the same time under
/// a later sync key.
pub open spec fn written_after<T>(row: StoredNode<T>, cursor: SyncCursor) -> bool {
    ||| row.updated_at > cursor.updated_at
    ||| row.updated_at == cursor.updated_at && text_lt(cursor.sync_key@, row.sync_key@)
}

/// The order of the change feed: by write time, then sync key.
pub open spec fn change_keys<T>(rows: Seq<StoredNode<T>>) -> Seq<(int, Seq<char>)> {
    Seq::new(rows.len(), |i: int| (rows[i].updated_at as int, rows[i].sync_key@))
}

/// Which rows are changes of the session after the cursor, if any.
pub open spec fn is_change<T>(rows: Seq<StoredNode<T>>, session_id: Seq<char>, cursor: Option<SyncCursor>) -> Seq<bool> {
    Seq::new(
        rows.len(),
        |i: int|
            rows[i].session_id@ == session_id && match cursor {
                Some(c) => written_after(rows[i], c),
                None => true,
            },
    )
}

/// The cursor at the row.
pub open spec fn cursor_at<T>(c: SyncCursor, row: StoredNode<T>) -> bool {
    c.updated_at == row.updated_at && c.sync_key@ == row.sync_key@
}

/// A page size of at least one.
pub open spec fn page_limit(limit: usize) -> int {
    if limit == 0 {
        1
    } else {
        limit as int
    }
}

/// A page of the changes of a session after a cursor: the first ones in
/// change order, at most `limit` (at least one), the cursor at the last of
/// them, and whether more remain.
pub open spec fn is_change_page<T>(
    rows: Seq<StoredNode<T>>,
    session_id: Seq<char>,
    cursor: Option<SyncCursor>,
    limit: usize,
    r: ChangePage,
) -> bool {
    &&& is_first_page(change_keys(rows), is_change(rows, session_id, cursor), page_limit(limit), r.positions@, r.has_more)
    &&& match r.next_cursor {
        Some(c) => r.positions@.len() > 0 && cursor_at(c, rows[r.positions@.last() as int]),
        None => r.positions@.len() == 0,
    }
}

/// The order of node queries: newest timestamp first.
pub open spec fn newest_first_keys<T>(rows: Seq<StoredNode<T>>) -> Seq<(int, Seq<char>)> {
    Seq::new(rows.len(), |i: int| (-(rows[i].timestamp as int), Seq::<char>::empty()))
}

/// Which rows a node query takes: of the session, where one is given, and
/// with a timestamp within the bounds that are given.
pub open spec fn in_query<T>(
    rows: Seq<StoredNode<T>>,
    session_id: Option<Seq<char>>,
    from: Option<i64>,
    to: Option<i64>,
) -> Seq<bool> {
    Seq::new(
        rows.len(),
        |i: int|
            (match session_id {
                Some(s) => rows[i].session_id@ == s,
                None => true,
            }) && (match from {
                Some(f) => f <= rows[i].timestamp,
                None => true,
            }) && (match to {
                Some(t) => rows[i].timestamp <= t,
                None => true,
            }),
    )
}

/// Some taken row is left out of `p`.
pub open spec fn leaves_out(n: int, eligible: Seq<bool>, p: Seq<usize>) -> bool {
    exists|q: usize| q < n && eligible[q as int] && !p.contains(q)
}

/// `chrono::Utc::now`, as microseconds since the Unix epoch
/// (`DateTime::timestamp_micros`): the current time.  The clock decides it,
/// so nothing is stated of it.  `Utc::now` panics where the system clock
/// reads a time before the epoch.
#[verifier::external_body]
fn now_micros() -> i64 {
    chrono::Utc::now().timestamp_micros()
}

/// `uuid::Uuid::new_v4`, in its hyphenated text form (`to_string`): a
/// random id.  Chance decides which; what is stated is its length, 36
/// characters, as `Hyphenated::LENGTH` fixes it.  It panics where the
/// operating system yields no random bytes.
#[verifier::external_body]
fn new_node_id() -> (r: String)
    ensures
        r@.len() == 36,
{
    uuid::Uuid::new_v4().to_string()
}

impl<T> NodeTable<T> {
    /// An empty table.
    pub fn new() -> (r: Self)
        ensures
            r@ == Seq::<StoredNode<T>>::empty(),
    {
        NodeTable { rows: Vec::new() }
    }

    /// The number of rows.
    pub fn len(&self) -> (r: usize)
        ensures
            r == self@.len(),
    {
        self.rows.len()
    }

    /// The row at `i`.
    pub fn row(&self, i: usize) -> (r: &StoredNode<T>)
        requires
            i < self@.len(),
        ensures
            *r == self@[i as int],
    {
        &self.rows[i]
    }

    /// The first row with the sync identity `(session_id, sync_key)`.
    pub fn find_identity(&self, session_id: &str, sync_key: &str) -> (r: Option<usize>)
        ensures
            match r {
                Some(i) => i < self@.len() && identity_position(self@, session_id@, sync_key@) == Some(i as int),
                None => identity_position(self@, session_id@, sync_key@) is None,
            },
    {
        proof {
            lemma_identity_position(self@, session_id@, sync_key@);
        }
        let s = chars_of(session_id);
        let k = chars_of(sync_key);
        let mut i: usize = 0;
        while i < self.rows.len()
            invariant
                i <= self@.len(),
                self@ == self.rows@,
                s@ == session_id@,
                k@ == sync_key@,
                forall|j: int| 0 <= j < i ==> !has_identity(#[trigger] self@[j], session_id@, sync_key@),
            decreases self@.len() - i,
        {
            if chars_eq(&chars_of(self.rows[i].session_id.as_str()), &s) && chars_eq(
                &chars_of(self.rows[i].sync_key.as_str()),
                &k,
            ) {
                proof {
                    lemma_identity_position(self@, session_id@, sync_key@);
                    match identity_position(self@, session_id@, sync_key@) {
                        Some(p) => {
                            if p < i {
                                assert(!has_identity(self@[p], session_id@, sync_key@));
                            }
                            if p > i {
                                assert(!has_identity(self@[i as int], session_id@, sync_key@));
                            }
                        },
                        None => {
                            assert(!has_identity(self@[i as int], session_id@, sync_key@));
                        },
                    }
                }
                return Some(i);
            }
            i = i + 1;
        }
        proof {
            match identity_position(self@, session_id@, sync_key@) {
                Some(p) => {
                    assert(!has_identity(self@[p], session_id@, sync_key@));
                },
                None => {},
            }
        }
        None
    }

    /// Stores a node under its sync identity, at time `now`: see
    /// `upsert_effect`.
    pub fn upsert_at(&mut self, write: NodeWrite<T>, content_changed: bool, now: i64) -> (r: UpsertReport)
        ensures
            upsert_effect(old(self)@, final(self)@, write, content_changed, r, now),
    {
        let key = effective_sync_key(write.sync_key.as_str(), write.canonical_sync_key.as_str());
        let ghost k = write_key(write);
        assert(key@ == k);
        proof {
            lemma_identity_position(self@, write.session_id@, k);
        }
        match self.find_identity(write.session_id.as_str(), key.as_str()) {
            None => {
                let id = new_node_id();
                let report = UpsertReport {
                    node_id: string_of(id.as_str()),
                    sync_key: string_of(key.as_str()),
                    status: NodeUpsertStatus::Created,
                    updated_at: now,
                };
                let ghost before = self@;
                self.rows.push(StoredNode {
                    node_id: id,
                    session_id: write.session_id,
                    sync_key: key,
                    timestamp: write.timestamp,
                    updated_at: now,
                    node: write.node,
                });
                proof {
                    assert(self@.take(before.len() as int) =~= before);
                    assert forall|i: int, j: int|
                        0 <= i < j < self@.len() && identities_unique(before) implies !has_identity(
                        self@[i],
                        self@[j].session_id@,
                        self@[j].sync_key@,
                    ) by {
                        if j == before.len() {
                            assert(!has_identity(before[i], write.session_id@, k));
                        } else {
                            assert(self@[i] == before[i] && self@[j] == before[j]);
                        }
                    }
                }
                report
            },
            Some(i) => {
                if content_changed {
                    let report = UpsertReport {
                        node_id: string_of(self.rows[i].node_id.as_str()),
                        sync_key: string_of(key.as_str()),
                        status: NodeUpsertStatus::Updated,
                        updated_at: now,
                    };
                    let ghost before = self@;
                    let row = StoredNode {
                        node_id: string_of(self.rows[i].node_id.as_str()),
                        session_id: write.session_id,
                        sync_key: key,
                        timestamp: write.timestamp,
                        updated_at: now,
                        node: write.node,
                    };
                    self.rows.set(i, row);
                    proof {
                        assert forall|j: int| 0 <= j < before.len() && j != i implies self@[j] == before[j] by {}
                        assert forall|a: int, b: int|
                            0 <= a < b < self@.len() && identities_unique(before) implies !has_identity(
                            self@[a],
                            self@[b].session_id@,
                            self@[b].sync_key@,
                        ) by {
                            if a == i {
                                assert(has_identity(before[a], self@[a].session_id@, self@[a].sync_key@));
                                assert(self@[b] == before[b]);
                            } else if b == i {
                                assert(has_identity(before[b], self@[b].session_id@, self@[b].sync_key@));
                                assert(self@[a] == before[a]);
                            } else {
                                assert(self@[a] == before[a] && self@[b] == before[b]);
                            }
                        }
                    }
                    report
                } else {
                    let report = UpsertReport {
                        node_id: string_of(self.rows[i].node_id.as_str()),
                        sync_key: key,
                        status: NodeUpsertStatus::Duplicate,
                        updated_at: self.rows[i].updated_at,
                    };
                    report
                }
            },
        }
    }

    /// Stores a node under its sync identity, at the current time (see
    /// `upsert_effect`, where the time is the report's).
    pub fn upsert(&mut self, write: NodeWrite<T>, content_changed: bool) -> (r: UpsertReport)
        ensures
            upsert_effect(old(self)@, final(self)@, write, content_changed, r, r.updated_at),
    {
        let now = now_micros();
        self.upsert_at(write, content_changed, now)
    }

    /// The changes of a session after `cursor`, a page of at most `limit`
    /// (at least one): see `is_change_page`.
    pub fn changes_since(&self, session_id: &str, cursor: Option<SyncCursor>, limit: usize) -> (r: ChangePage)
        ensures
            is_change_page(self@, session_id@, cursor, limit, r),
    {
        let s = chars_of(session_id);
        let ck: Vec<char> = match &cursor {
            Some(c) => chars_of(c.sync_key.as_str()),
            None => Vec::new(),
        };
        let mut keys: Vec<(i128, Vec<char>)> = Vec::new();
        let mut eligible: Vec<bool> = Vec::new();
        let mut i: usize = 0;
        while i < self.rows.len()
            invariant
                i <= self@.len(),
                self@ == self.rows@,
                s@ == session_id@,
                cursor matches Some(c) ==> ck@ == c.sync_key@,
                keys@.len() == i,
                eligible@.len() == i,
                forall|j: int| 0 <= j < i ==> #[trigger] key_view(keys@)[j] == change_keys(self@)[j],
                forall|j: int| 0 <= j < i ==> #[trigger] eligible@[j] == is_change(self@, session_id@, cursor)[j],
            decreases self@.len() - i,
        {
            let row = &self.rows[i];
            let rk = chars_of(row.sync_key.as_str());
            let after = match &cursor {
                Some(c) => row.updated_at > c.updated_at || (row.updated_at == c.updated_at && text_less(&ck, &rk)),
                None => true,
            };
            let e = chars_eq(&chars_of(row.session_id.as_str()), &s) && after;
            let ghost kb = keys@;
            keys.push((row.updated_at as i128, rk));
            eligible.push(e);
            proof {
                assert forall|j: int| 0 <= j < i + 1 implies #[trigger] key_view(keys@)[j] == change_keys(self@)[j] by {
                    if j < i {
                        assert(key_view(keys@)[j] == key_view(kb)[j]);
                    }
                }
            }
            i = i + 1;
        }
        proof {
            assert(key_view(keys@) =~= change_keys(self@));
            assert(eligible@ =~= is_change(self@, session_id@, cursor));
        }
        let lim: usize = if limit == 0 { 1 } else { limit };
        let (positions, has_more) = first_page(&keys, &eligible, lim);
        let next_cursor = if positions.len() > 0 {
            let last = positions[positions.len() - 1];
            proof {
                assert((#[trigger] positions@[positions@.len() - 1] as int) < change_keys(self@).len());
            }
            Some(SyncCursor {
                updated_at: self.rows[last].updated_at,
                sync_key: string_of(self.rows[last].sync_key.as_str()),
            })
        } else {
            None
        };
        ChangePage { positions, next_cursor, has_more }
    }

    /// The rows a node query takes (see `in_query`), newest timestamp
    /// first, at most `limit` (at least one).
    pub fn query(&self, session_id: Option<&str>, from: Option<i64>, to: Option<i64>, limit: usize) -> (r: Vec<usize>)
        ensures
            ({
                let e = in_query(self@, opt_text(session_id), from, to);
                is_first_page(newest_first_keys(self@), e, page_limit(limit), r@, leaves_out(self@.len() as int, e, r@))
            }),
    {
        let s: Vec<char> = match session_id {
            Some(x) => chars_of(x),
            None => Vec::new(),
        };
        let ghost e = in_query(self@, opt_text(session_id), from, to);
        let mut keys: Vec<(i128, Vec<char>)> = Vec::new();
        let mut eligible: Vec<bool> = Vec::new();
        let mut i: usize = 0;
        while i < self.rows.len()
            invariant
                i <= self@.len(),
                self@ == self.rows@,
                e == in_query(self@, opt_text(session_id), from, to),
                session_id matches Some(x) ==> s@ == x@,
                keys@.len() == i,
                eligible@.len() == i,
                forall|j: int| 0 <= j < i ==> #[trigger] key_view(keys@)[j] == newest_first_keys(self@)[j],
                forall|j: int| 0 <= j < i ==> #[trigger] eligible@[j] == e[j],
            decreases self@.len() - i,
        {
            let row = &self.rows[i];
            let in_session = match session_id {
                Some(_) => chars_eq(&chars_of(row.session_id.as_str()), &s),
                None => true,
            };
            let after_from = match from {
                Some(f) => f <= row.timestamp,
                None => true,
            };
            let before_to = match to {
                Some(t) => row.timestamp <= t,
                None => true,
            };
            let ghost kb = keys@;
            keys.push((-(row.timestamp as i128), Vec::new()));
            eligible.push(in_session && after_from && before_to);
            proof {
                assert forall|j: int| 0 <= j < i + 1 implies #[trigger] key_view(keys@)[j] == newest_first_keys(self@)[j] by {
                    if j < i {
                        assert(key_view(keys@)[j] == key_view(kb)[j]);
                    } else {
                        assert(key_view(keys@)[j].1 =~= Seq::<char>::empty());
                    }
                }
            }
            i = i + 1;
        }
        proof {
            assert(key_view(keys@) =~= newest_first_keys(self@));
            assert(eligible@ =~= e);
        }
        let lim: usize = if limit == 0 { 1 } else { limit };
        let (positions, _more) = first_page(&keys, &eligible, lim);
        positions
    }

    /// The newest nodes, of one session where one is given: a query without
    /// time bounds, of between 1 and 200 nodes.
    pub fn list(&self, limit: usize, session_id: Option<&str>) -> (r: Vec<usize>)
        ensures
            ({
                let e = in_query(self@, opt_text(session_id), None, None);
                let l = if limit < 1 { 1usize } else if limit > 200 { 200usize } else { limit };
                is_first_page(newest_first_keys(self@), e, l as int, r@, leaves_out(self@.len() as int, e, r@))
            }),
    {
        let l: usize = if limit < 1 { 1 } else if limit > 200 { 200 } else { limit };
        self.query(session_id, None, None, l)
    }
}


// ---------------------------------------------------------------------------
// Checkpoints

/// A connector's checkpoint for a session.
#[derive(Debug, Clone)]
pub struct CheckpointSlot<T> {
    pub session_id: String,
    pub connector_id: String,
    pub checkpoint: T,
}

/// The checkpoints of the store, one per session and connector.
pub struct CheckpointTable<T> {
    slots: Vec<CheckpointSlot<T>>,
}

impl<T> View for CheckpointTable<T> {
    type V = Seq<CheckpointSlot<T>>;

    closed spec fn view(&self) -> Seq<CheckpointSlot<T>> {
        self.slots@
    }
}

/// The slot belongs to the session and connector.
pub open spec fn slot_for<T>(slot: CheckpointSlot<T>, session_id: Seq<char>, connector_id: Seq<char>) -> bool {
    slot.session_id@ == session_id && slot.connector_id@ == connector_id
}

/// The first slot of the session and connector, if any.
pub open spec fn slot_position<T>(slots: Seq<CheckpointSlot<T>>, session_id: Seq<char>, connector_id: Seq<char>) -> Option<int>
    decreases slots.len(),
{
    if slots.len() == 0 {
        None
    } else {
        match slot_position(slots.drop_last(), session_id, connector_id) {
            Some(i) => Some(i),
            None => if slot_for(slots.last(), session_id, connector_id) {
                Some(slots.len() - 1)
            } else {
                None
            },
        }
    }
}

/// The checkpoint of the session and connector, if any.
pub open spec fn checkpoint_of<T>(slots: Seq<CheckpointSlot<T>>, session_id: Seq<char>, connector_id: Seq<char>) -> Option<T> {
    match slot_position(slots, session_id, connector_id) {
        Some(i) => Some(slots[i].checkpoint),
        None => None,
    }
}

/// Writing `checkpoint` for the session and connector turns `old` into
/// `new`: it replaces the checkpoint of their slot, or is appended in a slot
/// of its own where they have none.
pub open spec fn put_effect<T>(
    old: Seq<CheckpointSlot<T>>,
    new: Seq<CheckpointSlot<T>>,
    session_id: Seq<char>,
    connector_id: Seq<char>,
    checkpoint: T,
) -> bool {
    match slot_position(old, session_id, connector_id) {
        Some(i) => {
            &&& new.len() == old.len()
            &&& forall|j: int| 0 <= j < old.len() && j != i ==> new[j] == old[j]
            &&& slot_for(new[i], session_id, connector_id)
            &&& new[i].checkpoint == checkpoint
        },
        None => {
            &&& new.len() == old.len() + 1
            &&& new.take(old.len() as int) == old
            &&& slot_for(new.last(), session_id, connector_id)
            &&& new.last().checkpoint == checkpoint
        },
    }
}

proof fn lemma_slot_position<T>(slots: Seq<CheckpointSlot<T>>, session_id: Seq<char>, connector_id: Seq<char>)
    ensures
        match slot_position(slots, session_id, connector_id) {
            Some(i) => 0 <= i < slots.len() && slot_for(slots[i], session_id, connector_id) && forall|j: int|
                0 <= j < i ==> !slot_for(#[trigger] slots[j], session_id, connector_id),
            None => forall|j: int| 0 <= j < slots.len() ==> !slot_for(#[trigger] slots[j], session_id, connector_id),
        },
    decreases slots.len(),
{
    if slots.len() > 0 {
        lemma_slot_position(slots.drop_last(), session_id, connector_id);
        assert forall|j: int| 0 <= j < slots.len() - 1 implies slots.drop_last()[j] == slots[j] by {}
    }
}

/// The first matching slot is the one `slot_position` names.
proof fn lemma_slot_position_at<T>(slots: Seq<CheckpointSlot<T>>, session_id: Seq<char>, connector_id: Seq<char>, i: int)
    requires
        0 <= i < slots.len(),
        slot_for(slots[i], session_id, connector_id),
        forall|j: int| 0 <= j < i ==> !slot_for(#[trigger] slots[j], session_id, connector_id),
    ensures
        slot_position(slots, session_id, connector_id) == Some(i),
{
    lemma_slot_position(slots, session_id, connector_id);
    match slot_position(slots, session_id, connector_id) {
        Some(p) => {
            if p < i {
                assert(!slot_for(slots[p], session_id, connector_id));
            }
            if p > i {
                assert(!slot_for(slots[i], session_id, connector_id));
            }
        },
        None => {
            assert(!slot_for(slots[i], session_id, connector_id));
        },
    }
}

impl<T> CheckpointTable<T> {
    /// An empty table.
    pub fn new() -> (r: Self)
        ensures
            r@ == Seq::<CheckpointSlot<T>>::empty(),
    {
        CheckpointTable { slots: Vec::new() }
    }

    fn position(&self, session_id: &str, connector_id: &str) -> (r: Option<usize>)
        ensures
            match r {
                Some(i) => i < self@.len() && slot_position(self@, session_id@, connector_id@) == Some(i as int),
                None => slot_position(self@, session_id@, connector_id@) is None,
            },
    {
        proof {
            lemma_slot_position(self@, session_id@, connector_id@);
        }
        let s = chars_of(session_id);
        let c = chars_of(connector_id);
        let mut i: usize = 0;
        while i < self.slots.len()
            invariant
                i <= self@.len(),
                self@ == self.slots@,
                s@ == session_id@,
                c@ == connector_id@,
                forall|j: int| 0 <= j < i ==> !slot_for(#[trigger] self@[j], session_id@, connector_id@),
            decreases self@.len() - i,
        {
            if chars_eq(&chars_of(self.slots[i].session_id.as_str()), &s) && chars_eq(
                &chars_of(self.slots[i].connector_id.as_str()),
                &c,
            ) {
                proof {
                    lemma_slot_position_at(self@, session_id@, connector_id@, i as int);
                }
                return Some(i);
            }
            i = i + 1;
        }
        None
    }

    /// The checkpoint of the session and connector, if any.
    pub fn get(&self, session_id: &str, connector_id: &str) -> (r: Option<&T>)
        ensures
            match r {
                Some(x) => checkpoint_of(self@, session_id@, connector_id@) == Some(*x),
                None => checkpoint_of(self@, session_id@, connector_id@) is None,
            },
    {
        match self.position(session_id, connector_id) {
            Some(i) => Some(&self.slots[i].checkpoint),
            None => None,
        }
    }

    /// Writes the checkpoint of the session and connector: see `put_effect`.
    pub fn put(&mut self, session_id: String, connector_id: String, checkpoint: T)
        ensures
            put_effect(old(self)@, final(self)@, session_id@, connector_id@, checkpoint),
    {
        match self.position(session_id.as_str(), connector_id.as_str()) {
            Some(i) => {
                let ghost before = self@;
                self.slots.set(i, CheckpointSlot { session_id, connector_id, checkpoint });
                assert forall|j: int| 0 <= j < before.len() && j != i implies self@[j] == before[j] by {}
            },
            None => {
                let ghost before = self@;
                self.slots.push(CheckpointSlot { session_id, connector_id, checkpoint });
                assert(self@.take(before.len() as int) =~= before);
            },
        }
    }
}

/// A checkpoint read gives back the last write for its session and
/// connector, and writes for others leave it as it was.
pub proof fn lemma_checkpoint_read_after_write<T>(
    old: Seq<CheckpointSlot<T>>,
    new: Seq<CheckpointSlot<T>>,
    session_id: Seq<char>,
    connector_id: Seq<char>,
    checkpoint: T,
    read_session_id: Seq<char>,
    read_connector_id: Seq<char>,
)
    requires
        put_effect(old, new, session_id, connector_id, checkpoint),
    ensures
        checkpoint_of(new, read_session_id, read_connector_id) == if read_session_id == session_id
            && read_connector_id == connector_id {
            Some(checkpoint)
        } else {
            checkpoint_of(old, read_session_id, read_connector_id)
        },
{
    lemma_slot_position(old, session_id, connector_id);
    lemma_slot_position(old, read_session_id, read_connector_id);
    lemma_slot_position(new, read_session_id, read_connector_id);
    let same = read_session_id == session_id && read_connector_id == connector_id;
    match slot_position(old, session_id, connector_id) {
        Some(i) => {
            if same {
                assert forall|j: int| 0 <= j < i implies !slot_for(#[trigger] new[j], read_session_id, read_connector_id) by {
                    assert(new[j] == old[j]);
                }
                lemma_slot_position_at(new, read_session_id, read_connector_id, i);
            } else {
                assert(!slot_for(new[i], read_session_id, read_connector_id));
                assert(!slot_for(old[i], read_session_id, read_connector_id));
                match slot_position(old, read_session_id, read_connector_id) {
                    Some(p) => {
                        assert forall|j: int| 0 <= j < p implies !slot_for(#[trigger] new[j], read_session_id, read_connector_id) by {
                            if j != i {
                                assert(new[j] == old[j]);
                            }
                        }
                        assert(new[p] == old[p]);
                        lemma_slot_position_at(new, read_session_id, read_connector_id, p);
                    },
                    None => {
                        match slot_position(new, read_session_id, read_connector_id) {
                            Some(p) => {
                                if p != i {
                                    assert(new[p] == old[p]);
                                }
                                assert(false);
                            },
                            None => {},
                        }
                    },
                }
            }
        },
        None => {
            let n = old.len() as int;
            assert forall|j: int| 0 <= j < n implies new[j] == old[j] by {
                assert(new.take(n)[j] == new[j]);
            }
            if same {
                assert forall|j: int| 0 <= j < n implies !slot_for(#[trigger] new[j], read_session_id, read_connector_id) by {
                    assert(new[j] == old[j]);
                }
                lemma_slot_position_at(new, read_session_id, read_connector_id, n);
            } else {
                assert(!slot_for(new[n], read_session_id, read_connector_id));
                match slot_position(old, read_session_id, read_connector_id) {
                    Some(p) => {
                        assert forall|j: int| 0 <= j < p implies !slot_for(#[trigger] new[j], read_session_id, read_connector_id) by {
                            assert(new[j] == old[j]);
                        }
                        assert(new[p] == old[p]);
                        lemma_slot_position_at(new, read_session_id, read_connector_id, p);
                    },
                    None => {
                        match slot_position(new, read_session_id, read_connector_id) {
                            Some(p) => {
                                if p < n {
                                    assert(new[p] == old[p]);
                                }
                                assert(false);
                            },
                            None => {},
                        }
                    },
                }
            }
        },
    }
}

// ---------------------------------------------------------------------------
// Calibrations

/// A calibration of a session, with the trigger that caused it.
#[derive(Debug, Clone)]
pub struct CalibrationEntry<C> {
    pub session_id: String,
    pub calibration: C,
    pub trigger: String,
}

/// The calibrations of the store, oldest first.
pub struct CalibrationLog<C> {
    entries: Vec<CalibrationEntry<C>>,
}

impl<C> View for CalibrationLog<C> {
    type V = Seq<CalibrationEntry<C>>;

    closed spec fn view(&self) -> Seq<CalibrationEntry<C>> {
        self.entries@
    }
}

/// The latest calibration of the session, if any.
pub open spec fn last_calibration<C>(entries: Seq<CalibrationEntry<C>>, session_id: Seq<char>) -> Option<C>
    decreases entries.len(),
{
    if entries.len() == 0 {
        None
    } else if entries.last().session_id@ == session_id {
        Some(entries.last().calibration)
    } else {
        last_calibration(entries.drop_last(), session_id)
    }
}

/// The triggers of the session's calibrations, oldest first.
pub open spec fn triggers_of<C>(entries: Seq<CalibrationEntry<C>>, session_id: Seq<char>) -> Seq<Seq<char>>
    decreases entries.len(),
{
    if entries.len() == 0 {
        Seq::empty()
    } else {
        let p = triggers_of(entries.drop_last(), session_id);
        if entries.last().session_id@ == session_id {
            p.push(entries.last().trigger@)
        } else {
            p
        }
    }
}

impl<C> CalibrationLog<C> {
    /// An empty log.
    pub fn new() -> (r: Self)
        ensures
            r@ == Seq::<CalibrationEntry<C>>::empty(),
    {
        CalibrationLog { entries: Vec::new() }
    }

    /// The number of calibrations.
    pub fn len(&self) -> (r: usize)
        ensures
            r == self@.len(),
    {
        self.entries.len()
    }

    /// The calibration at `i`.
    pub fn entry(&self, i: usize) -> (r: &CalibrationEntry<C>)
        requires
            i < self@.len(),
        ensures
            *r == self@[i as int],
    {
        &self.entries[i]
    }

    /// Appends a calibration of the session.
    pub fn store(&mut self, session_id: String, calibration: C, trigger: String)
        ensures
            final(self)@ == old(self)@.push(CalibrationEntry { session_id, calibration, trigger }),
    {
        self.entries.push(CalibrationEntry { session_id, calibration, trigger });
    }

    /// The latest calibration of the session.
    pub fn last_for(&self, session_id: &str) -> (r: Option<&C>)
        ensures
            match r {
                Some(x) => last_calibration(self@, session_id@) == Some(*x),
                None => last_calibration(self@, session_id@) is None,
            },
    {
        let s = chars_of(session_id);
        let mut i: usize = self.entries.len();
        assert(self@.take(i as int) =~= self@);
        while i > 0
            invariant
                i <= self@.len(),
                self@ == self.entries@,
                s@ == session_id@,
                last_calibration(self@, session_id@) == last_calibration(self@.take(i as int), session_id@),
            decreases i,
        {
            assert(self@.take(i as int).drop_last() =~= self@.take(i - 1));
            if chars_eq(&chars_of(self.entries[i - 1].session_id.as_str()), &s) {
                return Some(&self.entries[i - 1].calibration);
            }
            i = i - 1;
        }
        None
    }

    /// The triggers of the session's calibrations, oldest first.
    pub fn triggers_for(&self, session_id: &str) -> (r: Vec<String>)
        ensures
            r@.map_values(|t: String| t@) == triggers_of(self@, session_id@),
    {
        let s = chars_of(session_id);
        let mut r: Vec<String> = Vec::new();
        let mut i: usize = 0;
        while i < self.entries.len()
            invariant
                i <= self@.len(),
                self@ == self.entries@,
                s@ == session_id@,
                r@.map_values(|t: String| t@) == triggers_of(self@.take(i as int), session_id@),
            decreases self@.len() - i,
        {
            assert(self@.take(i + 1).drop_last() =~= self@.take(i as int));
            if chars_eq(&chars_of(self.entries[i].session_id.as_str()), &s) {
                let ghost before = r@;
                r.push(string_of(self.entries[i].trigger.as_str()));
                assert(r@.map_values(|t: String| t@) =~= before.map_values(|t: String| t@).push(self@[i as int].trigger@));
            }
            i = i + 1;
        }
        assert(self@.take(self@.len() as int) =~= self@);
        r
    }
}

/// After a calibration of a session is stored, it is the session's latest,
/// and its trigger ends the session's trigger history; other sessions'
/// calibrations are as they were.
pub proof fn lemma_calibration_read_after_store<C>(
    entries: Seq<CalibrationEntry<C>>,
    entry: CalibrationEntry<C>,
    session_id: Seq<char>,
)
    ensures
        last_calibration(entries.push(entry), session_id) == if entry.session_id@ == session_id {
            Some(entry.calibration)
        } else {
            last_calibration(entries, session_id)
        },
        triggers_of(entries.push(entry), session_id) == if entry.session_id@ == session_id {
            triggers_of(entries, session_id).push(entry.trigger@)
        } else {
            triggers_of(entries, session_id)
        },
{
    assert(entries.push(entry).drop_last() =~= entries);
}

// ---------------------------------------------------------------------------
// Re-keying scopes

/// The first row of the node with this id, if any.
pub open spec fn node_position<T>(rows: Seq<StoredNode<T>>, node_id: Seq<char>) -> Option<int>
    decreases rows.len(),
{
    if rows.len() == 0 {
        None
    } else {
        match node_position(rows.drop_last(), node_id) {
            Some(i) => Some(i),
            None => if rows.last().node_id@ == node_id {
                Some(rows.len() - 1)
            } else {
                None
            },
        }
    }
}

proof fn lemma_node_position<T>(rows: Seq<StoredNode<T>>, node_id: Seq<char>)
    ensures
        match node_position(rows, node_id) {
            Some(i) => 0 <= i < rows.len() && rows[i].node_id@ == node_id && forall|j: int|
                0 <= j < i ==> (#[trigger] rows[j]).node_id@ != node_id,
            None => forall|j: int| 0 <= j < rows.len() ==> (#[trigger] rows[j]).node_id@ != node_id,
        },
    decreases rows.len(),
{
    if rows.len() > 0 {
        lemma_node_position(rows.drop_last(), node_id);
        assert forall|j: int| 0 <= j < rows.len() - 1 implies rows.drop_last()[j] == rows[j] by {}
    }
}

/// The scope, as `(tenant, session)`, of the node found for each id, in
/// order.
pub open spec fn found_pairs<T>(rows: Seq<StoredNode<T>>, node_ids: Seq<Seq<char>>) -> Seq<(Seq<char>, Seq<char>)>
    decreases node_ids.len(),
{
    if node_ids.len() == 0 {
        Seq::empty()
    } else {
        let p = found_pairs(rows, node_ids.drop_last());
        match node_position(rows, node_ids.last()) {
            Some(i) => p.push((tenant_of_session(rows[i].session_id@), rows[i].session_id@)),
            None => p,
        }
    }
}

/// The ids for which no node is found, in order.
pub open spec fn missing_of<T>(rows: Seq<StoredNode<T>>, node_ids: Seq<Seq<char>>) -> Seq<Seq<char>>
    decreases node_ids.len(),
{
    if node_ids.len() == 0 {
        Seq::empty()
    } else {
        let p = missing_of(rows, node_ids.drop_last());
        match node_position(rows, node_ids.last()) {
            Some(i) => p,
            None => p.push(node_ids.last()),
        }
    }
}

/// The sessions of the rows, in order.
pub open spec fn node_sessions<T>(rows: Seq<StoredNode<T>>) -> Seq<Seq<char>> {
    rows.map_values(|r: StoredNode<T>| r.session_id@)
}

/// The sessions of the calibrations, in order.
pub open spec fn calibration_sessions<C>(entries: Seq<CalibrationEntry<C>>) -> Seq<Seq<char>> {
    entries.map_values(|e: CalibrationEntry<C>| e.session_id@)
}

/// How often `s` occurs in `xs`.
pub open spec fn occurrences(xs: Seq<Seq<char>>, s: Seq<char>) -> nat
    decreases xs.len(),
{
    if xs.len() == 0 {
        0
    } else {
        occurrences(xs.drop_last(), s) + if xs.last() == s {
            1nat
        } else {
            0nat
        }
    }
}

/// Some applied scope moves the session.
pub open spec fn moves_session(scopes: Seq<ScopeRekeyResult>, session_id: Seq<char>) -> bool {
    exists|k: int| 0 <= k < scopes.len() && (#[trigger] scopes[k]).applied && scopes[k].source_session_id@ == session_id
}

/// The session a row of `session_id` is in after the applied scopes moved
/// into `target`.
pub open spec fn rekeyed_session(scopes: Seq<ScopeRekeyResult>, target: Seq<char>, session_id: Seq<char>) -> Seq<char> {
    if moves_session(scopes, session_id) {
        target
    } else {
        session_id
    }
}

/// The nodes of the moved sessions are in the target session; nothing else
/// changed.
pub open spec fn nodes_rekeyed<T>(
    old: Seq<StoredNode<T>>,
    new: Seq<StoredNode<T>>,
    scopes: Seq<ScopeRekeyResult>,
    target: Seq<char>,
) -> bool {
    &&& new.len() == old.len()
    &&& forall|j: int|
        0 <= j < old.len() ==> {
            &&& (#[trigger] new[j]).node_id == old[j].node_id
            &&& new[j].sync_key == old[j].sync_key
            &&& new[j].timestamp == old[j].timestamp
            &&& new[j].updated_at == old[j].updated_at
            &&& new[j].node == old[j].node
            &&& new[j].session_id@ == rekeyed_session(scopes, target, old[j].session_id@)
        }
}

/// The calibrations of the moved sessions are in the target session;
/// nothing else changed.
pub open spec fn calibrations_rekeyed<C>(
    old: Seq<CalibrationEntry<C>>,
    new: Seq<CalibrationEntry<C>>,
    scopes: Seq<ScopeRekeyResult>,
    target: Seq<char>,
) -> bool {
    &&& new.len() == old.len()
    &&& forall|j: int|
        0 <= j < old.len() ==> {
            &&& (#[trigger] new[j]).calibration == old[j].calibration
            &&& new[j].trigger == old[j].trigger
            &&& new[j].session_id@ == rekeyed_session(scopes, target, old[j].session_id@)
        }
}

/// Whether an applied scope moves the session (see `moves_session`).
fn moves_session_exec(scopes: &Vec<ScopeRekeyResult>, session_id: &Vec<char>) -> (r: bool)
    ensures
        r == moves_session(scopes@, session_id@),
{
    let mut k: usize = 0;
    while k < scopes.len()
        invariant
            k <= scopes@.len(),
            forall|m: int| 0 <= m < k ==> !((#[trigger] scopes@[m]).applied && scopes@[m].source_session_id@ == session_id@),
        decreases scopes@.len() - k,
    {
        if scopes[k].applied && chars_eq(&chars_of(scopes[k].source_session_id.as_str()), session_id) {
            return true;
        }
        k = k + 1;
    }
    false
}

impl<T> NodeTable<T> {
    /// The first row of the node with this id.
    pub fn find_node(&self, node_id: &str) -> (r: Option<usize>)
        ensures
            match r {
                Some(i) => i < self@.len() && node_position(self@, node_id@) == Some(i as int),
                None => node_position(self@, node_id@) is None,
            },
    {
        proof {
            lemma_node_position(self@, node_id@);
        }
        let id = chars_of(node_id);
        let mut i: usize = 0;
        while i < self.rows.len()
            invariant
                i <= self@.len(),
                self@ == self.rows@,
                id@ == node_id@,
                forall|j: int| 0 <= j < i ==> (#[trigger] self@[j]).node_id@ != node_id@,
            decreases self@.len() - i,
        {
            if chars_eq(&chars_of(self.rows[i].node_id.as_str()), &id) {
                proof {
                    lemma_node_position(self@, node_id@);
                    match node_position(self@, node_id@) {
                        Some(p) => {
                            if p > i {
                                assert(self@[i as int].node_id@ != node_id@);
                            }
                        },
                        None => {
                            assert(self@[i as int].node_id@ != node_id@);
                        },
                    }
                }
                return Some(i);
            }
            i = i + 1;
        }
        None
    }

    /// How many rows are in the session.
    pub fn count_session(&self, session_id: &str) -> (r: usize)
        ensures
            r == occurrences(node_sessions(self@), session_id@),
    {
        let s = chars_of(session_id);
        let mut n: usize = 0;
        let mut i: usize = 0;
        while i < self.rows.len()
            invariant
                i <= self@.len(),
                self@ == self.rows@,
                s@ == session_id@,
                n <= i,
                n == occurrences(node_sessions(self@).take(i as int), session_id@),
            decreases self@.len() - i,
        {
            assert(node_sessions(self@).take(i + 1).drop_last() =~= node_sessions(self@).take(i as int));
            if chars_eq(&chars_of(self.rows[i].session_id.as_str()), &s) {
                n = n + 1;
            }
            i = i + 1;
        }
        assert(node_sessions(self@).take(i as int) =~= node_sessions(self@));
        n
    }

    /// Moves the rows of the sessions that applied scopes move into
    /// `target`.
    fn move_sessions(&mut self, scopes: &Vec<ScopeRekeyResult>, target: &str)
        ensures
            nodes_rekeyed(old(self)@, final(self)@, scopes@, target@),
    {
        let mut j: usize = 0;
        while j < self.rows.len()
            invariant
                j <= self@.len(),
                self@ == self.rows@,
                self@.len() == old(self)@.len(),
                forall|m: int|
                    0 <= m < self@.len() ==> {
                        &&& (#[trigger] self@[m]).node_id == old(self)@[m].node_id
                        &&& self@[m].sync_key == old(self)@[m].sync_key
                        &&& self@[m].timestamp == old(self)@[m].timestamp
                        &&& self@[m].updated_at == old(self)@[m].updated_at
                        &&& self@[m].node == old(self)@[m].node
                        &&& self@[m].session_id@ == if m < j {
                            rekeyed_session(scopes@, target@, old(self)@[m].session_id@)
                        } else {
                            old(self)@[m].session_id@
                        }
                    },
            decreases self@.len() - j,
        {
            let moves = moves_session_exec(scopes, &chars_of(self.rows[j].session_id.as_str()));
            if moves {
                self.rows[j].session_id = string_of(target);
            }
            j = j + 1;
        }
    }
}

impl<C> CalibrationLog<C> {
    /// How many calibrations are of the session.
    pub fn count_session(&self, session_id: &str) -> (r: usize)
        ensures
            r == occurrences(calibration_sessions(self@), session_id@),
    {
        let s = chars_of(session_id);
        let mut n: usize = 0;
        let mut i: usize = 0;
        while i < self.entries.len()
            invariant
                i <= self@.len(),
                self@ == self.entries@,
                s@ == session_id@,
                n <= i,
                n == occurrences(calibration_sessions(self@).take(i as int), session_id@),
            decreases self@.len() - i,
        {
            assert(calibration_sessions(self@).take(i + 1).drop_last() =~= calibration_sessions(self@).take(i as int));
            if chars_eq(&chars_of(self.entries[i].session_id.as_str()), &s) {
                n = n + 1;
            }
            i = i + 1;
        }
        assert(calibration_sessions(self@).take(i as int) =~= calibration_sessions(self@));
        n
    }

    /// Moves the calibrations of the sessions that applied scopes move into
    /// `target`.
    fn move_sessions(&mut self, scopes: &Vec<ScopeRekeyResult>, target: &str)
        ensures
            calibrations_rekeyed(old(self)@, final(self)@, scopes@, target@),
    {
        let mut j: usize = 0;
        while j < self.entries.len()
            invariant
                j <= self@.len(),
                self@ == self.entries@,
                self@.len() == old(self)@.len(),
                forall|m: int|
                    0 <= m < self@.len() ==> {
                        &&& (#[trigger] self@[m]).calibration == old(self)@[m].calibration
                        &&& self@[m].trigger == old(self)@[m].trigger
                        &&& self@[m].session_id@ == if m < j {
                            rekeyed_session(scopes@, target@, old(self)@[m].session_id@)
                        } else {
                            old(self)@[m].session_id@
                        }
                    },
            decreases self@.len() - j,
        {
            let moves = moves_session_exec(scopes, &chars_of(self.entries[j].session_id.as_str()));
            if moves {
                self.entries[j].session_id = string_of(target);
            }
            j = j + 1;
        }
    }
}

/// What a batch re-key did, given the validated target (`tenant`,
/// `session`, the normalized `node_ids`) and the tables before (`old_*`)
/// and after (`new_*`).  The scopes are those of the nodes found for the
/// ids, each once, in order of first occurrence; each is decided on its own
/// row counts and those of the target, all counted before anything moved;
/// the totals are those of the applied scopes; and the rows of the applied
/// scopes' sessions are moved into the target session.
pub open spec fn rekey_outcome<T, C>(
    old_nodes: Seq<StoredNode<T>>,
    old_calibrations: Seq<CalibrationEntry<C>>,
    new_nodes: Seq<StoredNode<T>>,
    new_calibrations: Seq<CalibrationEntry<C>>,
    tenant: Seq<char>,
    session: Seq<char>,
    node_ids: Seq<Seq<char>>,
    dry_run: bool,
    allow_merge: bool,
    res: BatchRekeyResult,
) -> bool {
    let scopes = distinct_scopes(found_pairs(old_nodes, node_ids));
    let ns = node_sessions(old_nodes);
    let cs = calibration_sessions(old_calibrations);
    &&& res.dry_run == dry_run
    &&& res.requested_node_ids == node_ids.len()
    &&& strings_view(res.missing_node_ids@) == missing_of(old_nodes, node_ids)
    &&& res.resolved_node_ids == node_ids.len() - missing_of(old_nodes, node_ids).len()
    &&& res.scopes@.len() == scopes.len()
    &&& forall|k: int|
        0 <= k < scopes.len() ==> scope_decided(
            #[trigger] res.scopes@[k],
            scopes[k].0,
            scopes[k].1,
            tenant,
            session,
            occurrences(ns, scopes[k].1) as int,
            occurrences(cs, scopes[k].1) as int,
            occurrences(ns, session) as int,
            occurrences(cs, session) as int,
            allow_merge,
            dry_run,
        )
    &&& res.temporal_nodes_updated == moved_nodes(res.scopes@)
    &&& res.calibrations_updated == moved_calibrations(res.scopes@)
    &&& nodes_rekeyed(old_nodes, new_nodes, res.scopes@, session)
    &&& calibrations_rekeyed(old_calibrations, new_calibrations, res.scopes@, session)
}

/// No value occurs twice.
pub open spec fn no_repeats<A>(xs: Seq<A>) -> bool {
    forall|a: int, b: int| 0 <= a < b < xs.len() ==> xs[a] != xs[b]
}

/// The occurrences in `xs` of each value of `ss`, summed.
spec fn occurrence_sum(xs: Seq<Seq<char>>, ss: Seq<Seq<char>>) -> nat
    decreases ss.len(),
{
    if ss.len() == 0 {
        0
    } else {
        occurrence_sum(xs, ss.drop_last()) + occurrences(xs, ss.last())
    }
}

proof fn lemma_occurrences_absent(xs: Seq<Seq<char>>, v: Seq<char>)
    requires
        !xs.contains(v),
    ensures
        occurrences(xs, v) == 0,
    decreases xs.len(),
{
    if xs.len() > 0 {
        assert(xs.last() == xs[xs.len() - 1]);
        assert(!xs.drop_last().contains(v)) by {
            if xs.drop_last().contains(v) {
                let a = choose|a: int| 0 <= a < xs.drop_last().len() && xs.drop_last()[a] == v;
                assert(xs[a] == v);
            }
        }
        lemma_occurrences_absent(xs.drop_last(), v);
    }
}

proof fn lemma_occurrences_at_most_one(xs: Seq<Seq<char>>, v: Seq<char>)
    requires
        no_repeats(xs),
    ensures
        occurrences(xs, v) <= 1,
    decreases xs.len(),
{
    if xs.len() > 0 {
        let d = xs.drop_last();
        assert(no_repeats(d)) by {
            assert forall|a: int, b: int| 0 <= a < b < d.len() implies d[a] != d[b] by {
                assert(d[a] == xs[a] && d[b] == xs[b]);
            }
        }
        if xs.last() == v {
            assert(!d.contains(v)) by {
                if d.contains(v) {
                    let a = choose|a: int| 0 <= a < d.len() && d[a] == v;
                    assert(xs[a] == xs[xs.len() - 1]);
                }
            }
            lemma_occurrences_absent(d, v);
        } else {
            lemma_occurrences_at_most_one(d, v);
        }
    }
}

proof fn lemma_occurrence_sum_push(xs: Seq<Seq<char>>, v: Seq<char>, ss: Seq<Seq<char>>)
    ensures
        occurrence_sum(xs.push(v), ss) == occurrence_sum(xs, ss) + occurrences(ss, v),
    decreases ss.len(),
{
    if ss.len() > 0 {
        lemma_occurrence_sum_push(xs, v, ss.drop_last());
        assert(xs.push(v).drop_last() =~= xs);
    }
}

proof fn lemma_occurrence_sum_empty(ss: Seq<Seq<char>>)
    ensures
        occurrence_sum(Seq::empty(), ss) == 0,
    decreases ss.len(),
{
    if ss.len() > 0 {
        lemma_occurrence_sum_empty(ss.drop_last());
    }
}

/// Values that occur once each together occur no more often than `xs` is
/// long.
proof fn lemma_occurrence_sum_bound(xs: Seq<Seq<char>>, ss: Seq<Seq<char>>)
    requires
        no_repeats(ss),
    ensures
        occurrence_sum(xs, ss) <= xs.len(),
    decreases xs.len(),
{
    if xs.len() == 0 {
        assert(xs =~= Seq::<Seq<char>>::empty());
        lemma_occurrence_sum_empty(ss);
    } else {
        let d = xs.drop_last();
        assert(xs =~= d.push(xs.last()));
        lemma_occurrence_sum_push(d, xs.last(), ss);
        lemma_occurrences_at_most_one(ss, xs.last());
        lemma_occurrence_sum_bound(d, ss);
    }
}

/// The source sessions of the scopes.
spec fn scope_sessions(scopes: Seq<ScopeRekeyResult>) -> Seq<Seq<char>> {
    scopes.map_values(|r: ScopeRekeyResult| r.source_session_id@)
}

proof fn lemma_moved_within_counts(scopes: Seq<ScopeRekeyResult>, ns: Seq<Seq<char>>, cs: Seq<Seq<char>>)
    requires
        forall|k: int|
            0 <= k < scopes.len() ==> (#[trigger] scopes[k]).temporal_nodes == occurrences(ns, scopes[k].source_session_id@)
                && scopes[k].calibrations == occurrences(cs, scopes[k].source_session_id@),
    ensures
        moved_nodes(scopes) <= occurrence_sum(ns, scope_sessions(scopes)),
        moved_calibrations(scopes) <= occurrence_sum(cs, scope_sessions(scopes)),
    decreases scopes.len(),
{
    if scopes.len() > 0 {
        let d = scopes.drop_last();
        assert forall|k: int| 0 <= k < d.len() implies (#[trigger] d[k]).temporal_nodes == occurrences(
            ns,
            d[k].source_session_id@,
        ) && d[k].calibrations == occurrences(cs, d[k].source_session_id@) by {
            assert(d[k] == scopes[k]);
        }
        lemma_moved_within_counts(d, ns, cs);
        assert(scope_sessions(scopes).drop_last() =~= scope_sessions(d));
        assert(scope_sessions(scopes).last() == scopes.last().source_session_id@);
        assert(scopes.last() == scopes[scopes.len() - 1]);
    }
}

/// Each scope found is made of a session and the tenant it belongs to.
proof fn lemma_found_pairs_scoped<T>(rows: Seq<StoredNode<T>>, node_ids: Seq<Seq<char>>)
    ensures
        forall|k: int|
            0 <= k < found_pairs(rows, node_ids).len() ==> (#[trigger] found_pairs(rows, node_ids)[k]).0
                == tenant_of_session(found_pairs(rows, node_ids)[k].1),
    decreases node_ids.len(),
{
    if node_ids.len() > 0 {
        lemma_found_pairs_scoped(rows, node_ids.drop_last());
        let p = found_pairs(rows, node_ids.drop_last());
        assert forall|k: int| 0 <= k < p.len() implies #[trigger] found_pairs(rows, node_ids)[k] == p[k] by {}
    }
}

/// The distinct scopes come each once and are among the scopes given.
proof fn lemma_distinct_scopes(pairs: Seq<(Seq<char>, Seq<char>)>)
    ensures
        no_repeats(distinct_scopes(pairs)),
        forall|k: int| 0 <= k < distinct_scopes(pairs).len() ==> pairs.contains(#[trigger] distinct_scopes(pairs)[k]),
    decreases pairs.len(),
{
    if pairs.len() > 0 {
        let d = pairs.drop_last();
        lemma_distinct_scopes(d);
        let p = distinct_scopes(d);
        assert forall|k: int| 0 <= k < p.len() implies pairs.contains(#[trigger] p[k]) by {
            let a = choose|a: int| 0 <= a < d.len() && d[a] == p[k];
            assert(pairs[a] == p[k]);
        }
        if !p.contains(pairs.last()) {
            let q = p.push(pairs.last());
            assert(pairs[pairs.len() - 1] == pairs.last());
            assert forall|a: int, b: int| 0 <= a < b < q.len() implies q[a] != q[b] by {
                if b == q.len() - 1 {
                    assert(q[a] == p[a]);
                } else {
                    assert(q[a] == p[a] && q[b] == p[b]);
                }
            }
            assert forall|k: int| 0 <= k < q.len() implies pairs.contains(#[trigger] q[k]) by {
                if k < p.len() {
                    assert(q[k] == p[k]);
                }
            }
        }
    }
}

/// Distinct scopes that each pair a session with its tenant have distinct
/// sessions.
proof fn lemma_scoped_sessions_distinct(scopes: Seq<(Seq<char>, Seq<char>)>)
    requires
        no_repeats(scopes),
        forall|k: int| 0 <= k < scopes.len() ==> (#[trigger] scopes[k]).0 == tenant_of_session(scopes[k].1),
    ensures
        forall|a: int, b: int| 0 <= a < b < scopes.len() ==> scopes[a].1 != scopes[b].1,
{
    assert forall|a: int, b: int| 0 <= a < b < scopes.len() implies scopes[a].1 != scopes[b].1 by {
        if scopes[a].1 == scopes[b].1 {
            assert(scopes[a].0 == scopes[b].0);
            assert(scopes[a] == scopes[b]);
        }
    }
}

proof fn lemma_missing_within<T>(rows: Seq<StoredNode<T>>, node_ids: Seq<Seq<char>>)
    ensures
        missing_of(rows, node_ids).len() <= node_ids.len(),
    decreases node_ids.len(),
{
    if node_ids.len() > 0 {
        lemma_missing_within(rows, node_ids.drop_last());
    }
}

/// Re-keys the scopes of some nodes into a target scope, or, in a dry run,
/// reports what would be moved.  The request is validated as
/// `rekey_target_of` says; a valid one does what `rekey_outcome` says.
pub fn rekey_scopes<T, C>(
    nodes: &mut NodeTable<T>,
    calibrations: &mut CalibrationLog<C>,
    node_ids: &[String],
    target_tenant_id: &str,
    target_session_id: &str,
    dry_run: bool,
    allow_merge: bool,
) -> (r: Result<BatchRekeyResult, String>)
    ensures
        match rekey_target_of(strings_view(node_ids@), target_tenant_id@, target_session_id@) {
            Err(e) => {
                &&& r matches Err(m) && m@ == e
                &&& final(nodes)@ == old(nodes)@
                &&& final(calibrations)@ == old(calibrations)@
            },
            Ok(t) => r matches Ok(res) && rekey_outcome(
                old(nodes)@,
                old(calibrations)@,
                final(nodes)@,
                final(calibrations)@,
                t.0,
                t.1,
                t.2,
                dry_run,
                allow_merge,
                res,
            ),
        },
{
    let target = match prepare_rekey(node_ids, target_tenant_id, target_session_id) {
        Ok(t) => t,
        Err(e) => {
            return Err(e);
        },
    };
    let ghost ids = strings_view(target.node_ids@);
    let ghost rows = nodes@;
    let ghost cals = calibrations@;
    let mut missing: Vec<String> = Vec::new();
    let mut pairs: Vec<(String, String)> = Vec::new();
    let mut i: usize = 0;
    while i < target.node_ids.len()
        invariant
            i <= target.node_ids@.len(),
            ids == strings_view(target.node_ids@),
            rows == nodes@,
            strings_view(missing@) == missing_of(rows, ids.take(i as int)),
            pair_views(pairs@) == found_pairs(rows, ids.take(i as int)),
        decreases target.node_ids@.len() - i,
    {
        proof {
            assert(ids.take(i + 1).drop_last() =~= ids.take(i as int));
            assert(ids.take(i + 1).last() == target.node_ids@[i as int]@);
        }
        match nodes.find_node(target.node_ids[i].as_str()) {
            None => {
                let ghost before = missing@;
                missing.push(string_of(target.node_ids[i].as_str()));
                assert(strings_view(missing@) =~= strings_view(before).push(ids[i as int]));
            },
            Some(p) => {
                let session = nodes.row(p).session_id.as_str();
                let ghost before = pairs@;
                pairs.push((derive_tenant_id_from_session(session), string_of(session)));
                assert(pair_views(pairs@) =~= pair_views(before).push(
                    (tenant_of_session(rows[p as int].session_id@), rows[p as int].session_id@),
                ));
            },
        }
        i = i + 1;
    }
    proof {
        assert(ids.take(ids.len() as int) =~= ids);
    }
    let scopes = unique_scopes(&pairs);
    let ghost sv = pair_views(scopes@);
    let ghost ns = node_sessions(rows);
    let ghost cs = calibration_sessions(cals);
    let target_nodes = nodes.count_session(target.session_id.as_str());
    let target_cals = calibrations.count_session(target.session_id.as_str());
    let mut decided: Vec<ScopeRekeyResult> = Vec::new();
    let mut k: usize = 0;
    while k < scopes.len()
        invariant
            k <= scopes@.len(),
            sv == pair_views(scopes@),
            rows == nodes@,
            cals == calibrations@,
            ns == node_sessions(rows),
            cs == calibration_sessions(cals),
            target_nodes == occurrences(ns, target.session_id@),
            target_cals == occurrences(cs, target.session_id@),
            decided@.len() == k,
            forall|m: int|
                0 <= m < k ==> scope_decided(
                    #[trigger] decided@[m],
                    sv[m].0,
                    sv[m].1,
                    target.tenant_id@,
                    target.session_id@,
                    occurrences(ns, sv[m].1) as int,
                    occurrences(cs, sv[m].1) as int,
                    target_nodes as int,
                    target_cals as int,
                    allow_merge,
                    dry_run,
                ),
        decreases scopes@.len() - k,
    {
        let source_tenant = scopes[k].0.as_str();
        let source_session = scopes[k].1.as_str();
        proof {
            assert(sv[k as int] == (scopes@[k as int].0@, scopes@[k as int].1@));
        }
        let n = nodes.count_session(source_session);
        let c = calibrations.count_session(source_session);
        let d = decide_scope(
            source_tenant,
            source_session,
            target.tenant_id.as_str(),
            target.session_id.as_str(),
            n,
            c,
            target_nodes,
            target_cals,
            allow_merge,
            dry_run,
        );
        decided.push(d);
        k = k + 1;
    }
    let node_count = nodes.len();
    let calibration_count = calibrations.len();
    proof {
        let fp = found_pairs(rows, ids);
        lemma_found_pairs_scoped(rows, ids);
        lemma_distinct_scopes(fp);
        assert forall|m: int| 0 <= m < sv.len() implies (#[trigger] sv[m]).0 == tenant_of_session(sv[m].1) by {
            let a = choose|a: int| 0 <= a < fp.len() && fp[a] == sv[m];
        }
        lemma_scoped_sessions_distinct(sv);
        let ss = scope_sessions(decided@);
        assert(no_repeats(ss)) by {
            assert forall|a: int, b: int| 0 <= a < b < ss.len() implies ss[a] != ss[b] by {
                assert(ss[a] == decided@[a].source_session_id@);
                assert(ss[b] == decided@[b].source_session_id@);
            }
        }
        assert forall|m: int| 0 <= m < decided@.len() implies (#[trigger] decided@[m]).temporal_nodes == occurrences(
            ns,
            decided@[m].source_session_id@,
        ) && decided@[m].calibrations == occurrences(cs, decided@[m].source_session_id@) by {}
        lemma_moved_within_counts(decided@, ns, cs);
        lemma_occurrence_sum_bound(ns, ss);
        lemma_occurrence_sum_bound(cs, ss);
        lemma_missing_within(rows, ids);
    }
    if !dry_run {
        nodes.move_sessions(&decided, target.session_id.as_str());
        calibrations.move_sessions(&decided, target.session_id.as_str());
    } else {
        proof {
            assert forall|s: Seq<char>| !moves_session(decided@, s) by {
                assert forall|m: int| 0 <= m < decided@.len() implies !(#[trigger] decided@[m]).applied by {}
            }
        }
    }
    let requested = target.node_ids.len();
    Ok(finish_rekey(dry_run, requested, missing, decided))
}

// ---------------------------------------------------------------------------
// Laws of the change feed

/// The change feed is incremental: where no two rows share a sync
/// identity, the changes after a page's cursor are exactly the changes
/// after the page's own cursor that the page did not hold.  Reading page by
/// page with the cursor each page returns thus sees every change once.
pub proof fn lemma_change_feed_incremental<T>(
    rows: Seq<StoredNode<T>>,
    session_id: Seq<char>,
    cursor: Option<SyncCursor>,
    limit: usize,
    page: ChangePage,
    next: SyncCursor,
)
    requires
        identities_unique(rows),
        is_change_page(rows, session_id, cursor, limit, page),
        page.next_cursor == Some(next),
    ensures
        forall|q: usize|
            q < rows.len() ==> (#[trigger] is_change(rows, session_id, Some(next))[q as int] <==> (is_change(
                rows,
                session_id,
                cursor,
            )[q as int] && !page.positions@.contains(q))),
{
    let k = change_keys(rows);
    let old_e = is_change(rows, session_id, cursor);
    let new_e = is_change(rows, session_id, Some(next));
    let p = page.positions@;
    let l = p.last() as int;
    assert(l == p[p.len() - 1] as int);
    assert(0 <= l < rows.len() && old_e[l]);
    assert(cursor_at(next, rows[l]));
    assert forall|qu: usize| qu < rows.len() implies (#[trigger] new_e[qu as int] <==> (old_e[qu as int]
        && !p.contains(qu))) by {
        let q = qu as int;
        assert(k[q] == (rows[q].updated_at as int, rows[q].sync_key@));
        assert(k[l] == (rows[l].updated_at as int, rows[l].sync_key@));
        lemma_text_lt_asymmetric(rows[q].sync_key@, rows[l].sync_key@);
        lemma_text_lt_asymmetric(rows[l].sync_key@, rows[l].sync_key@);
        if p.contains(qu) {
            let a = choose|a: int| 0 <= a < p.len() && p[a] == qu;
            if a < p.len() - 1 {
                assert(ranks_before(k, p[a] as int, p[p.len() - 1] as int));
            }
            assert(!written_after(rows[q], next));
        } else if old_e[q] {
            assert(qu < k.len() && old_e[qu as int] && !p.contains(qu));
            assert(ranks_before(k, l, q));
            if rows[q].updated_at == rows[l].updated_at && rows[q].sync_key@ == rows[l].sync_key@ {
                assert(has_identity(rows[l], rows[q].session_id@, rows[q].sync_key@));
                assert(false);
            }
        } else if rows[q].session_id@ == session_id {
            let c = cursor->0;
            assert(written_after(rows[l], c));
            assert(!written_after(rows[q], c));
            if written_after(rows[q], next) {
                if rows[q].updated_at == rows[l].updated_at && rows[l].updated_at == c.updated_at {
                    lemma_text_lt_transitive(c.sync_key@, rows[l].sync_key@, rows[q].sync_key@);
                }
                assert(false);
            }
        }
    }
}


// ---------------------------------------------------------------------------
// Laws of storing nodes

proof fn lemma_identity_position_at<T>(rows: Seq<StoredNode<T>>, session_id: Seq<char>, sync_key: Seq<char>, i: int)
    requires
        0 <= i < rows.len(),
        has_identity(rows[i], session_id, sync_key),
        forall|j: int| 0 <= j < i ==> !has_identity(#[trigger] rows[j], session_id, sync_key),
    ensures
        identity_position(rows, session_id, sync_key) == Some(i),
{
    lemma_identity_position(rows, session_id, sync_key);
    match identity_position(rows, session_id, sync_key) {
        Some(p) => {
            if p < i {
                assert(!has_identity(rows[p], session_id, sync_key));
            }
            if p > i {
                assert(!has_identity(rows[i], session_id, sync_key));
            }
        },
        None => {
            assert(!has_identity(rows[i], session_id, sync_key));
        },
    }
}

/// A row is not reported again from the cursor at it: where a node was
/// stored at its own write time and sync key and the cursor stands at that
/// row (as a pull leaves it), a change query from the cursor does not bring
/// the node back as a change.
pub proof fn lemma_row_not_reported_from_own_cursor<T>(
    rows: Seq<StoredNode<T>>,
    session_id: Seq<char>,
    cursor: SyncCursor,
    limit: usize,
    page: ChangePage,
    i: usize,
)
    requires
        i < rows.len(),
        cursor_at(cursor, rows[i as int]),
        is_change_page(rows, session_id, Some(cursor), limit, page),
    ensures
        !page.positions@.contains(i),
{
    lemma_text_lt_asymmetric(cursor.sync_key@, rows[i as int].sync_key@);
    assert(!is_change(rows, session_id, Some(cursor))[i as int]);
    if page.positions@.contains(i) {
        let a = choose|a: int| 0 <= a < page.positions@.len() && page.positions@[a] == i;
        assert(is_change(rows, session_id, Some(cursor))[page.positions@[a] as int]);
    }
}

/// Storing the same node twice adds at most one row: the second write,
/// with unchanged content, is a duplicate that changes nothing and reports
/// the row the first write left.
pub proof fn lemma_upsert_twice_is_duplicate<T>(
    old: Seq<StoredNode<T>>,
    mid: Seq<StoredNode<T>>,
    new: Seq<StoredNode<T>>,
    write: NodeWrite<T>,
    content_changed: bool,
    first: UpsertReport,
    second: UpsertReport,
    first_time: i64,
    second_time: i64,
)
    requires
        upsert_effect(old, mid, write, content_changed, first, first_time),
        upsert_effect(mid, new, write, false, second, second_time),
    ensures
        second.status == NodeUpsertStatus::Duplicate,
        new == mid,
        mid.len() <= old.len() + 1,
        second.node_id@ == first.node_id@,
        second.sync_key@ == first.sync_key@,
{
    let k = write_key(write);
    let s = write.session_id@;
    lemma_identity_position(old, s, k);
    match identity_position(old, s, k) {
        None => {
            let n = old.len() as int;
            assert forall|j: int| 0 <= j < n implies !has_identity(#[trigger] mid[j], s, k) by {
                assert(mid.take(n)[j] == mid[j]);
                assert(!has_identity(old[j], s, k));
            }
            assert(mid.last() == mid[n]);
            lemma_identity_position_at(mid, s, k, n);
        },
        Some(i) => {
            if content_changed {
                assert forall|j: int| 0 <= j < i implies !has_identity(#[trigger] mid[j], s, k) by {
                    assert(mid[j] == old[j]);
                    assert(!has_identity(old[j], s, k));
                }
                lemma_identity_position_at(mid, s, k, i);
            }
        },
    }
}

// ---------------------------------------------------------------------------
// Laws of re-keying

/// A dry run moves nothing: every row keeps its session, and no moved rows
/// are counted.
pub proof fn lemma_rekey_dry_run_moves_nothing<T, C>(
    old_nodes: Seq<StoredNode<T>>,
    old_calibrations: Seq<CalibrationEntry<C>>,
    new_nodes: Seq<StoredNode<T>>,
    new_calibrations: Seq<CalibrationEntry<C>>,
    tenant: Seq<char>,
    session: Seq<char>,
    node_ids: Seq<Seq<char>>,
    allow_merge: bool,
    res: BatchRekeyResult,
)
    requires
        rekey_outcome(
            old_nodes,
            old_calibrations,
            new_nodes,
            new_calibrations,
            tenant,
            session,
            node_ids,
            true,
            allow_merge,
            res,
        ),
    ensures
        node_sessions(new_nodes) == node_sessions(old_nodes),
        calibration_sessions(new_calibrations) == calibration_sessions(old_calibrations),
        res.temporal_nodes_updated == 0,
        res.calibrations_updated == 0,
{
    let scopes = res.scopes@;
    assert forall|k: int| 0 <= k < scopes.len() implies !(#[trigger] scopes[k]).applied by {}
    assert forall|s: Seq<char>| !moves_session(scopes, s) by {}
    lemma_dry_run_moves_nothing(scopes);
    assert(node_sessions(new_nodes) =~= node_sessions(old_nodes)) by {
        assert forall|j: int| 0 <= j < old_nodes.len() implies node_sessions(new_nodes)[j] == node_sessions(old_nodes)[j] by {
            assert(new_nodes[j].session_id@ == rekeyed_session(scopes, session, old_nodes[j].session_id@));
        }
    }
    assert(calibration_sessions(new_calibrations) =~= calibration_sessions(old_calibrations)) by {
        assert forall|j: int| 0 <= j < old_calibrations.len() implies calibration_sessions(new_calibrations)[j]
            == calibration_sessions(old_calibrations)[j] by {
            assert(new_calibrations[j].session_id@ == rekeyed_session(scopes, session, old_calibrations[j].session_id@));
        }
    }
}

/// A scope that was moved into another session is left empty: no node and
/// no calibration remains in its source session.
pub proof fn lemma_rekey_empties_moved_sources<T, C>(
    old_nodes: Seq<StoredNode<T>>,
    old_calibrations: Seq<CalibrationEntry<C>>,
    new_nodes: Seq<StoredNode<T>>,
    new_calibrations: Seq<CalibrationEntry<C>>,
    tenant: Seq<char>,
    session: Seq<char>,
    node_ids: Seq<Seq<char>>,
    dry_run: bool,
    allow_merge: bool,
    res: BatchRekeyResult,
    k: int,
)
    requires
        rekey_outcome(
            old_nodes,
            old_calibrations,
            new_nodes,
            new_calibrations,
            tenant,
            session,
            node_ids,
            dry_run,
            allow_merge,
            res,
        ),
        0 <= k < res.scopes@.len(),
        res.scopes@[k].applied,
        res.scopes@[k].source_session_id@ != session,
    ensures
        occurrences(node_sessions(new_nodes), res.scopes@[k].source_session_id@) == 0,
        occurrences(calibration_sessions(new_calibrations), res.scopes@[k].source_session_id@) == 0,
{
    let scopes = res.scopes@;
    let src = scopes[k].source_session_id@;
    assert(moves_session(scopes, src));
    assert(!node_sessions(new_nodes).contains(src)) by {
        if node_sessions(new_nodes).contains(src) {
            let j = choose|j: int| 0 <= j < node_sessions(new_nodes).len() && node_sessions(new_nodes)[j] == src;
            assert(new_nodes[j].session_id@ == rekeyed_session(scopes, session, old_nodes[j].session_id@));
        }
    }
    assert(!calibration_sessions(new_calibrations).contains(src)) by {
        if calibration_sessions(new_calibrations).contains(src) {
            let j = choose|j: int|
                0 <= j < calibration_sessions(new_calibrations).len() && calibration_sessions(new_calibrations)[j] == src;
            assert(new_calibrations[j].session_id@ == rekeyed_session(scopes, session, old_calibrations[j].session_id@));
        }
    }
    lemma_occurrences_absent(node_sessions(new_nodes), src);
    lemma_occurrences_absent(calibration_sessions(new_calibrations), src);
}
} // verus!
