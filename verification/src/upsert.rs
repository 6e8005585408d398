//! What storing a node with sync identity does: nothing for a duplicate,
//! an update of its source metadata where only that changed, else the
//! creation of a record with the optional fields the node carries.
use vstd::prelude::*;
use crate::node_fields::opt_string;
use crate::tallies::NodeUpsertStatus;
use crate::text::{chars_eq, chars_of, string_from_range, trim, trim_bounds};

verus! {

/// The statement an upsert runs.
#[derive(Debug, Clone, Copy, PartialEq, Eq, Structural)]
pub enum UpsertAction {
    /// A record with the same sync identity and metadata exists.
    Duplicate,
    /// A record with the same sync identity exists with other metadata; its
    /// metadata is replaced, or cleared where the node has none.
    UpdateMetadata { clear_source_metadata: bool },
    /// No record exists; one is created with the assignments of the
    /// optional fields that the node carries.
    Create { parent: bool, source_metadata: bool, embedding: bool },
}

/// The optional fields a node carries.
#[derive(Debug, Clone, Copy, PartialEq, Eq, Structural)]
pub struct OptionalFields {
    pub parent_node_id: bool,
    pub source_metadata: bool,
    pub context_summary: bool,
    pub embedding: bool,
    pub embedding_model: bool,
    pub embedding_dimensions: bool,
    pub embedded_at: bool,
}

/// The action for a node whose serialized source metadata is
/// `candidate_metadata`, given the serialized metadata of the existing
/// record with its sync identity, if there is one.
pub open spec fn upsert_action(
    existing: Option<Option<Seq<char>>>,
    candidate_metadata: Option<Seq<char>>,
    fields: OptionalFields,
) -> UpsertAction {
    match existing {
        Some(m) => if m == candidate_metadata {
            UpsertAction::Duplicate
        } else {
            UpsertAction::UpdateMetadata { clear_source_metadata: !fields.source_metadata }
        },
        None => UpsertAction::Create {
            parent: fields.parent_node_id,
            source_metadata: fields.source_metadata,
            embedding: fields.context_summary || fields.embedding || fields.embedding_model
                || fields.embedding_dimensions || fields.embedded_at,
        },
    }
}

pub open spec fn opt_opt_string(o: Option<Option<String>>) -> Option<Option<Seq<char>>> {
    match o {
        Some(m) => Some(opt_string(m)),
        None => None,
    }
}

fn same_metadata(a: &Option<String>, b: &Option<String>) -> (r: bool)
    ensures
        r == (opt_string(*a) == opt_string(*b)),
{
    match (a, b) {
        (Some(x), Some(y)) => chars_eq(&chars_of(x.as_str()), &chars_of(y.as_str())),
        (None, None) => true,
        _ => false,
    }
}

/// The action of an upsert (see `upsert_action`).
pub fn plan_upsert(
    existing: &Option<Option<String>>,
    candidate_metadata: &Option<String>,
    fields: OptionalFields,
) -> (r: UpsertAction)
    ensures
        r == upsert_action(opt_opt_string(*existing), opt_string(*candidate_metadata), fields),
{
    match existing {
        Some(m) => if same_metadata(m, candidate_metadata) {
            UpsertAction::Duplicate
        } else {
            UpsertAction::UpdateMetadata { clear_source_metadata: !fields.source_metadata }
        },
        None => UpsertAction::Create {
            parent: fields.parent_node_id,
            source_metadata: fields.source_metadata,
            embedding: fields.context_summary || fields.embedding || fields.embedding_model
                || fields.embedding_dimensions || fields.embedded_at,
        },
    }
}

/// The plan of an upsert, in terms of what the store holds and what the
/// node carries: where no record has the sync identity, the node is
/// created, with its parent assignment exactly when it carries a parent,
/// its source metadata assignment exactly when it carries metadata, and
/// the embedding assignments exactly when it carries any embedding field;
/// where a record has it with the same metadata, nothing is written; where
/// the metadata differs, the metadata is replaced, and cleared exactly
/// when the node carries none.
pub proof fn lemma_upsert_plan(
    existing: Option<Option<Seq<char>>>,
    candidate_metadata: Option<Seq<char>>,
    fields: OptionalFields,
)
    ensures
        existing is None ==> upsert_action(existing, candidate_metadata, fields) == (UpsertAction::Create {
            parent: fields.parent_node_id,
            source_metadata: fields.source_metadata,
            embedding: fields.context_summary || fields.embedding || fields.embedding_model
                || fields.embedding_dimensions || fields.embedded_at,
        }),
        existing == Some(candidate_metadata) ==> upsert_action(existing, candidate_metadata, fields)
            == UpsertAction::Duplicate,
        existing matches Some(m) && m != candidate_metadata ==> upsert_action(
            existing,
            candidate_metadata,
            fields,
        ) == (UpsertAction::UpdateMetadata { clear_source_metadata: !fields.source_metadata }),
{
}

/// What an upsert reports for its action.
pub fn upsert_status(action: UpsertAction) -> (r: NodeUpsertStatus)
    ensures
        r == match action {
            UpsertAction::Duplicate => NodeUpsertStatus::Duplicate,
            UpsertAction::UpdateMetadata { .. } => NodeUpsertStatus::Updated,
            UpsertAction::Create { .. } => NodeUpsertStatus::Created,
        },
{
    match action {
        UpsertAction::Duplicate => NodeUpsertStatus::Duplicate,
        UpsertAction::UpdateMetadata { .. } => NodeUpsertStatus::Updated,
        UpsertAction::Create { .. } => NodeUpsertStatus::Created,
    }
}

/// A node's sync key: its own, trimmed, where it is not blank, else the
/// canonical key derived from the node.
pub fn effective_sync_key(sync_key: &str, canonical: &str) -> (r: String)
    ensures
        r@ == (if trim(sync_key@).len() > 0 {
            trim(sync_key@)
        } else {
            canonical@
        }),
{
    let v = chars_of(sync_key);
    let (a, b) = trim_bounds(&v, 0, v.len());
    assert(v@.subrange(0, v@.len() as int) =~= v@);
    if a < b {
        string_from_range(&v, a, b)
    } else {
        crate::text::string_of(canonical)
    }
}

} // verus!
