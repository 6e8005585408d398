//! The bookkeeping of the two batch jobs over nodes: pulling changes from a
//! sync source page by page, and embedding stored nodes.  The services run
//! the jobs and report each page and node outcome here; the counts kept
//! here add up to what was fetched or selected.
use vstd::prelude::*;
use crate::requests::{
    eq_ignore_ascii_case, push_failure_reason, strings_view, EmbeddingMigrationMode,
};
use crate::tenant::opt_str;
use crate::text::{ascii_lower_chars, chars_eq, chars_of};

verus! {

/// What storing a node did.
#[derive(Debug, Clone, Copy, PartialEq, Eq, Structural)]
pub enum NodeUpsertStatus {
    Created,
    Updated,
    Duplicate,
    Skipped,
}

// ---------------------------------------------------------------------------
// Sync pulls

/// The counts of a sync pull.
#[derive(Debug, Clone, Copy, PartialEq, Eq, Structural)]
pub struct SyncPullTally {
    pub batches: usize,
    pub fetched: usize,
    pub filtered: usize,
    pub created: usize,
    pub updated: usize,
    pub duplicate: usize,
    pub skipped: usize,
    pub has_more: bool,
}

/// Every fetched node has been filtered out or stored with some status.
pub open spec fn pull_balanced(t: SyncPullTally) -> bool {
    t.fetched == t.filtered + t.created + t.updated + t.duplicate + t.skipped
}

/// What became of one node of a page.
#[derive(Debug, Clone, Copy, PartialEq, Eq, Structural)]
pub enum PullOutcome {
    Filtered,
    Stored(NodeUpsertStatus),
}

pub open spec fn record_pull_spec(t: SyncPullTally, o: PullOutcome) -> SyncPullTally {
    match o {
        PullOutcome::Filtered => SyncPullTally { filtered: (t.filtered + 1) as usize, ..t },
        PullOutcome::Stored(NodeUpsertStatus::Created) => SyncPullTally { created: (t.created + 1) as usize, ..t },
        PullOutcome::Stored(NodeUpsertStatus::Updated) => SyncPullTally { updated: (t.updated + 1) as usize, ..t },
        PullOutcome::Stored(NodeUpsertStatus::Duplicate) => SyncPullTally { duplicate: (t.duplicate + 1) as usize, ..t },
        PullOutcome::Stored(NodeUpsertStatus::Skipped) => SyncPullTally { skipped: (t.skipped + 1) as usize, ..t },
    }
}

/// The tally after a page of `n` nodes is taken in.
pub open spec fn begin_page_spec(t: SyncPullTally, n: usize) -> SyncPullTally {
    SyncPullTally { batches: (t.batches + 1) as usize, fetched: (t.fetched + n) as usize, ..t }
}

/// The tally after the outcomes `os` of a page's nodes, in order.
pub open spec fn record_pulls(t: SyncPullTally, os: Seq<PullOutcome>) -> SyncPullTally
    decreases os.len(),
{
    if os.len() == 0 {
        t
    } else {
        record_pull_spec(record_pulls(t, os.drop_last()), os.last())
    }
}

/// The size of the pages a pull asks for: the requested size in `1..=500`.
pub fn pull_page_size(requested: usize) -> (r: usize)
    ensures
        r == (if requested < 1 {
            1
        } else if requested > 500 {
            500
        } else {
            requested
        }),
{
    if requested < 1 {
        1
    } else if requested > 500 {
        500
    } else {
        requested
    }
}

/// The number of pages a pull takes at most: the requested number, no
/// limit where none is requested, and at least one.
pub fn pull_batch_limit(requested: Option<usize>) -> (r: usize)
    ensures
        r == match requested {
            Some(n) => if n < 1 {
                1
            } else {
                n
            },
            None => usize::MAX,
        },
{
    match requested {
        Some(n) => if n < 1 {
            1
        } else {
            n
        },
        None => usize::MAX,
    }
}

impl SyncPullTally {
    pub fn new() -> (r: Self)
        ensures
            r == (SyncPullTally {
                batches: 0,
                fetched: 0,
                filtered: 0,
                created: 0,
                updated: 0,
                duplicate: 0,
                skipped: 0,
                has_more: false,
            }),
    {
        SyncPullTally {
            batches: 0,
            fetched: 0,
            filtered: 0,
            created: 0,
            updated: 0,
            duplicate: 0,
            skipped: 0,
            has_more: false,
        }
    }

    /// Another page is read while fewer than `max_batches` were.
    pub fn wants_page(&self, max_batches: usize) -> (r: bool)
        ensures
            r == (self.batches < max_batches),
    {
        self.batches < max_batches
    }

    /// Takes in a page of `page_len` nodes; an empty page ends the pull
    /// with the page's `has_more`.
    pub fn begin_page(&mut self, page_len: usize, page_has_more: bool) -> (stop: bool)
        requires
            page_len > 0 ==> old(self).batches < usize::MAX && old(self).fetched + page_len
                <= usize::MAX,
        ensures
            stop == (page_len == 0),
            *final(self) == if page_len == 0 {
                SyncPullTally { has_more: page_has_more, ..*old(self) }
            } else {
                begin_page_spec(*old(self), page_len)
            },
    {
        if page_len == 0 {
            self.has_more = page_has_more;
            true
        } else {
            self.batches = self.batches + 1;
            self.fetched = self.fetched + page_len;
            false
        }
    }

    /// Takes in what became of one node.
    pub fn record(&mut self, outcome: PullOutcome)
        requires
            old(self).filtered < usize::MAX,
            old(self).created < usize::MAX,
            old(self).updated < usize::MAX,
            old(self).duplicate < usize::MAX,
            old(self).skipped < usize::MAX,
        ensures
            *final(self) == record_pull_spec(*old(self), outcome),
    {
        match outcome {
            PullOutcome::Filtered => self.filtered = self.filtered + 1,
            PullOutcome::Stored(NodeUpsertStatus::Created) => self.created = self.created + 1,
            PullOutcome::Stored(NodeUpsertStatus::Updated) => self.updated = self.updated + 1,
            PullOutcome::Stored(NodeUpsertStatus::Duplicate) => self.duplicate = self.duplicate + 1,
            PullOutcome::Stored(NodeUpsertStatus::Skipped) => self.skipped = self.skipped + 1,
        }
    }

    /// Closes a page: the pull goes on only where the source has more.
    pub fn end_page(&mut self, page_has_more: bool) -> (stop: bool)
        ensures
            stop == !page_has_more,
            *final(self) == (SyncPullTally { has_more: page_has_more, ..*old(self) }),
    {
        self.has_more = page_has_more;
        !page_has_more
    }
}

/// Taking in a page and then what became of each of its nodes keeps the
/// counts adding up to what was fetched (where no count wraps).
pub proof fn lemma_pull_page_balanced(t: SyncPullTally, os: Seq<PullOutcome>)
    requires
        pull_balanced(t),
        t.fetched + os.len() <= usize::MAX,
        t.batches < usize::MAX,
    ensures
        pull_balanced(record_pulls(begin_page_spec(t, os.len() as usize), os)),
{
    lemma_pull_counts(begin_page_spec(t, os.len() as usize), os);
}

proof fn lemma_pull_counts(t: SyncPullTally, os: Seq<PullOutcome>)
    requires
        t.filtered + t.created + t.updated + t.duplicate + t.skipped + os.len() <= usize::MAX,
    ensures
        ({
            let r = record_pulls(t, os);
            &&& r.filtered + r.created + r.updated + r.duplicate + r.skipped == t.filtered
                + t.created + t.updated + t.duplicate + t.skipped + os.len()
            &&& r.fetched == t.fetched
            &&& r.batches == t.batches
        }),
    decreases os.len(),
{
    if os.len() > 0 {
        lemma_pull_counts(t, os.drop_last());
    }
}

// ---------------------------------------------------------------------------
// Embedding migrations

/// The counts of an embedding migration run.
#[derive(Debug, Clone)]
pub struct MigrationTally {
    pub scanned: usize,
    pub selected: usize,
    pub updated: usize,
    pub skipped: usize,
    pub failed: usize,
    pub duplicate: usize,
    pub failure_reasons: Vec<String>,
}

/// What became of one selected node: nothing to embed it from; the
/// provider failed (with the reason); stored with some status; the store
/// failed (with the reason).
#[derive(Debug, Clone)]
pub enum MigrationOutcome {
    NoInput,
    EmbedFailed(String),
    Stored(NodeUpsertStatus),
    StoreFailed(String),
}

/// Every node handled so far is counted once.
pub open spec fn migration_handled(t: MigrationTally) -> int {
    t.updated + t.skipped + t.failed + t.duplicate
}

/// The updated, skipped, failed and duplicate counts of a run.
pub open spec fn migration_counts(t: MigrationTally) -> (int, int, int, int) {
    (t.updated as int, t.skipped as int, t.failed as int, t.duplicate as int)
}

/// The counts after one more outcome: a stored node counts as updated
/// (created or updated), duplicate or skipped by its status; a node without
/// input as skipped; a failure as failed.
pub open spec fn counted(c: (int, int, int, int), outcome: MigrationOutcome) -> (int, int, int, int) {
    let (u, s, f, d) = c;
    match outcome {
        MigrationOutcome::NoInput => (u, s + 1, f, d),
        MigrationOutcome::EmbedFailed(_) => (u, s, f + 1, d),
        MigrationOutcome::StoreFailed(_) => (u, s, f + 1, d),
        MigrationOutcome::Stored(NodeUpsertStatus::Created) => (u + 1, s, f, d),
        MigrationOutcome::Stored(NodeUpsertStatus::Updated) => (u + 1, s, f, d),
        MigrationOutcome::Stored(NodeUpsertStatus::Duplicate) => (u, s, f, d + 1),
        MigrationOutcome::Stored(NodeUpsertStatus::Skipped) => (u, s + 1, f, d),
    }
}

/// The node limit of a preview in `1..=50000` and its sample size in
/// `1..=200`.
pub fn preview_limits(max_nodes: usize, sample_limit: usize) -> (r: (usize, usize))
    ensures
        r.0 == (if max_nodes < 1 {
            1
        } else if max_nodes > 50000 {
            50000
        } else {
            max_nodes
        }),
        r.1 == (if sample_limit < 1 {
            1
        } else if sample_limit > 200 {
            200
        } else {
            sample_limit
        }),
{
    let m = if max_nodes < 1 {
        1
    } else if max_nodes > 50000 {
        50000
    } else {
        max_nodes
    };
    let s = if sample_limit < 1 {
        1
    } else if sample_limit > 200 {
        200
    } else {
        sample_limit
    };
    (m, s)
}

/// The node limit of a run in `1..=50000` and its batch size in `1..=500`.
pub fn migration_limits(max_nodes: usize, batch_size: usize) -> (r: (usize, usize))
    ensures
        r.0 == (if max_nodes < 1 {
            1
        } else if max_nodes > 50000 {
            50000
        } else {
            max_nodes
        }),
        r.1 == (if batch_size < 1 {
            1
        } else if batch_size > 500 {
            500
        } else {
            batch_size
        }),
{
    let m = if max_nodes < 1 {
        1
    } else if max_nodes > 50000 {
        50000
    } else {
        max_nodes
    };
    let b = pull_page_size(batch_size);
    (m, b)
}

impl MigrationTally {
    /// A run over `scanned` candidates of which `selected` are to be
    /// embedded; a dry run counts every selected node as updated.
    pub fn start(scanned: usize, selected: usize, dry_run: bool) -> (r: Self)
        ensures
            r.scanned == scanned,
            r.selected == selected,
            r.updated == (if dry_run { selected } else { 0 }),
            r.skipped == 0,
            r.failed == 0,
            r.duplicate == 0,
            r.failure_reasons@.len() == 0,
    {
        MigrationTally {
            scanned,
            selected,
            updated: if dry_run {
                selected
            } else {
                0
            },
            skipped: 0,
            failed: 0,
            duplicate: 0,
            failure_reasons: Vec::new(),
        }
    }

    /// Takes in what became of one node; failures keep their reason, up to
    /// 100 of them.
    pub fn record(&mut self, outcome: MigrationOutcome)
        requires
            migration_handled(*old(self)) < usize::MAX,
        ensures
            migration_handled(*final(self)) == migration_handled(*old(self)) + 1,
            final(self).scanned == old(self).scanned,
            final(self).selected == old(self).selected,
            migration_counts(*final(self)) == counted(migration_counts(*old(self)), outcome),
            final(self).failure_reasons@ == match outcome {
                MigrationOutcome::EmbedFailed(r) => if old(self).failure_reasons@.len() < 100 {
                    old(self).failure_reasons@.push(r)
                } else {
                    old(self).failure_reasons@
                },
                MigrationOutcome::StoreFailed(r) => if old(self).failure_reasons@.len() < 100 {
                    old(self).failure_reasons@.push(r)
                } else {
                    old(self).failure_reasons@
                },
                _ => old(self).failure_reasons@,
            },
    {
        match outcome {
            MigrationOutcome::NoInput => self.skipped = self.skipped + 1,
            MigrationOutcome::EmbedFailed(reason) => {
                self.failed = self.failed + 1;
                push_failure_reason(&mut self.failure_reasons, reason);
            },
            MigrationOutcome::StoreFailed(reason) => {
                self.failed = self.failed + 1;
                push_failure_reason(&mut self.failure_reasons, reason);
            },
            MigrationOutcome::Stored(NodeUpsertStatus::Created) => self.updated = self.updated + 1,
            MigrationOutcome::Stored(NodeUpsertStatus::Updated) => self.updated = self.updated + 1,
            MigrationOutcome::Stored(NodeUpsertStatus::Duplicate) => self.duplicate = self.duplicate + 1,
            MigrationOutcome::Stored(NodeUpsertStatus::Skipped) => self.skipped = self.skipped + 1,
        }
    }
}

/// A candidate is embedded by a run in mode `mode`: every candidate when
/// re-indexing all, only those without an embedding otherwise.
pub fn selected_for_migration(mode: EmbeddingMigrationMode, has_embedding: bool) -> (r: bool)
    ensures
        r == (mode == EmbeddingMigrationMode::ReindexAll || !has_embedding),
{
    match mode {
        EmbeddingMigrationMode::MissingOnly => !has_embedding,
        EmbeddingMigrationMode::ReindexAll => true,
    }
}

/// A stored node is a migration candidate where it matches each filter
/// that is given: whether it has an embedding; its embedding model, up to
/// ASCII case (a node without a model never matches); its sync key, among
/// the given keys.
pub open spec fn is_candidate(
    has_embedding: bool,
    model: Option<Seq<char>>,
    sync_key: Seq<char>,
    want_embedding: Option<bool>,
    model_filter: Option<Seq<char>>,
    sync_keys: Option<Seq<Seq<char>>>,
) -> bool {
    &&& (want_embedding matches Some(w) ==> has_embedding == w)
    &&& (model_filter matches Some(f) ==> (model matches Some(m) && eq_ignore_ascii_case(m, f)))
    &&& (sync_keys matches Some(ks) ==> ks.contains(sync_key))
}

pub open spec fn opt_keys(o: Option<&Vec<String>>) -> Option<Seq<Seq<char>>> {
    match o {
        Some(v) => Some(strings_view(v@)),
        None => None,
    }
}

#[verifier::loop_isolation(false)]
pub fn migration_candidate(
    has_embedding: bool,
    embedding_model: Option<&str>,
    sync_key: &str,
    want_embedding: Option<bool>,
    model_filter: Option<&str>,
    sync_keys: Option<&Vec<String>>,
) -> (r: bool)
    ensures
        r == is_candidate(
            has_embedding,
            opt_str(embedding_model),
            sync_key@,
            want_embedding,
            opt_str(model_filter),
            opt_keys(sync_keys),
        ),
{
    if let Some(w) = want_embedding {
        if has_embedding != w {
            return false;
        }
    }
    if let Some(f) = model_filter {
        match embedding_model {
            Some(m) => {
                let a = ascii_lower_chars(&chars_of(m));
                let b = ascii_lower_chars(&chars_of(f));
                if !chars_eq(&a, &b) {
                    return false;
                }
            },
            None => return false,
        }
    }
    if let Some(ks) = sync_keys {
        let k = chars_of(sync_key);
        let mut i: usize = 0;
        while i < ks.len()
            invariant
                i <= ks@.len(),
                k@ == sync_key@,
                forall|j: int| 0 <= j < i ==> #[trigger] strings_view(ks@)[j] != sync_key@,
            decreases ks@.len() - i,
        {
            let c = chars_of(ks[i].as_str());
            assert(strings_view(ks@)[i as int] == ks@[i as int]@);
            if chars_eq(&c, &k) {
                return true;
            }
            i = i + 1;
        }
        proof {
            if strings_view(ks@).contains(sync_key@) {
                let j = choose|j: int| 0 <= j < strings_view(ks@).len() && strings_view(ks@)[j] == sync_key@;
                assert(strings_view(ks@)[j] != sync_key@);
            }
        }
        return false;
    }
    true
}

} // verus!
