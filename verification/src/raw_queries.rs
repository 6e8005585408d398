//! SurrealQL statements of the node store: the fixed ones, and the builders
//! that fill record ids, limits, filters and optional assignments into their
//! templates.
use vstd::prelude::*;
use crate::text::{decimal_of, push_decimal, push_str, string_of};

verus! {

pub const QUERY_NODES_HEAD: &'static str = "\n            SELECT\n                tenant_id AS TenantId,\n                session_id AS SessionId,\n                raw AS Raw,\n                tier AS Tier,\n                timestamp AS Timestamp,\n                compression_depth AS CompressionDepth,\n                parent_node_id AS ParentNodeId,\n                sync_key AS SyncKey,\n                updated_at AS UpdatedAt,\n                source_metadata AS SourceMetadata,\n                context_summary AS ContextSummary,\n                embedding AS Embedding,\n                embedding_model AS EmbeddingModel,\n                embedding_dimensions AS EmbeddingDimensions,\n                embedded_at AS EmbeddedAt,\n                psi AS Psi,\n                rho AS Rho,\n                kappa AS Kappa,\n                user_stability AS UserStability,\n                user_friction AS UserFriction,\n                user_logic AS UserLogic,\n                user_autonomy AS UserAutonomy,\n                user_psi AS UserPsi,\n                model_stability AS ModelStability,\n                model_friction AS ModelFriction,\n                model_logic AS ModelLogic,\n                model_autonomy AS ModelAutonomy,\n                model_psi AS ModelPsi,\n                comp_stability AS CompStability,\n                comp_friction AS CompFriction,\n                comp_logic AS CompLogic,\n                comp_autonomy AS CompAutonomy,\n                comp_psi AS CompPsi,\n                0 AS ResonanceDelta\n            FROM temporal_node\n            ";
pub const QUERY_NODES_AFTER_WHERE: &'static str = "\n            ORDER BY Timestamp DESC\n            LIMIT ";
pub const QUERY_NODES_TAIL: &'static str = ";\n            ";
pub const CREATE_NODE_HEAD: &'static str = "\n            CREATE temporal_node:`";
pub const CREATE_NODE_AFTER_ID: &'static str = "` SET\n                tenant_id = $tenant_id,\n                session_id = $session_id,\n                raw = $raw,\n                tier = $tier,\n                timestamp = <datetime>$timestamp,\n                compression_depth = $compression_depth,";
pub const CREATE_NODE_AFTER_PARENT: &'static str = "\n                sync_key = $sync_key,\n                updated_at = <datetime>$updated_at,";
pub const CREATE_NODE_AFTER_SOURCE: &'static str = "\n                ";
pub const CREATE_NODE_TAIL: &'static str = "\n                psi = $psi,\n                rho = $rho,\n                kappa = $kappa,\n                user_stability = $user_stability,\n                user_friction = $user_friction,\n                user_logic = $user_logic,\n                user_autonomy = $user_autonomy,\n                user_psi = $user_psi,\n                model_stability = $model_stability,\n                model_friction = $model_friction,\n                model_logic = $model_logic,\n                model_autonomy = $model_autonomy,\n                model_psi = $model_psi,\n                comp_stability = $comp_stability,\n                comp_friction = $comp_friction,\n                comp_logic = $comp_logic,\n                comp_autonomy = $comp_autonomy,\n                comp_psi = $comp_psi;\n            ";
pub const LEGACY_SYNC_HEAD: &'static str = "\n            UPDATE temporal_node:`";
pub const LEGACY_SYNC_TAIL: &'static str = "` SET\n                tenant_id = $tenant_id,\n                sync_key = $sync_key,\n                updated_at = <datetime>$updated_at;\n            ";
pub const SYNC_METADATA_HEAD: &'static str = "\n            UPDATE temporal_node:`";
pub const SYNC_METADATA_AFTER_ID: &'static str = "` SET\n                ";
pub const SYNC_METADATA_TAIL: &'static str = "\n                updated_at = <datetime>$updated_at;\n            ";
pub const UPDATE_NODE_HEAD: &'static str = "\n            UPDATE temporal_node:`";
pub const UPDATE_NODE_AFTER_ID: &'static str = "` SET\n                tenant_id = $tenant_id,\n                session_id = $session_id,\n                raw = $raw,\n                tier = $tier,\n                timestamp = <datetime>$timestamp,\n                compression_depth = $compression_depth,";
pub const UPDATE_NODE_AFTER_PARENT: &'static str = "\n                sync_key = $sync_key,\n                updated_at = <datetime>$updated_at,";
pub const UPDATE_NODE_AFTER_SOURCE: &'static str = "\n                ";
pub const UPDATE_NODE_TAIL: &'static str = "\n                psi = $psi,\n                rho = $rho,\n                kappa = $kappa,\n                user_stability = $user_stability,\n                user_friction = $user_friction,\n                user_logic = $user_logic,\n                user_autonomy = $user_autonomy,\n                user_psi = $user_psi,\n                model_stability = $model_stability,\n                model_friction = $model_friction,\n                model_logic = $model_logic,\n                model_autonomy = $model_autonomy,\n                model_psi = $model_psi,\n                comp_stability = $comp_stability,\n                comp_friction = $comp_friction,\n                comp_logic = $comp_logic,\n                comp_autonomy = $comp_autonomy,\n                comp_psi = $comp_psi;\n            ";
pub const CHANGES_SINCE_HEAD: &'static str = "\n            SELECT\n                tenant_id AS TenantId,\n                session_id AS SessionId,\n                raw AS Raw,\n                tier AS Tier,\n                timestamp AS Timestamp,\n                compression_depth AS CompressionDepth,\n                parent_node_id AS ParentNodeId,\n                sync_key AS SyncKey,\n                updated_at AS UpdatedAt,\n                source_metadata AS SourceMetadata,\n                context_summary AS ContextSummary,\n                embedding AS Embedding,\n                embedding_model AS EmbeddingModel,\n                embedding_dimensions AS EmbeddingDimensions,\n                embedded_at AS EmbeddedAt,\n                psi AS Psi,\n                rho AS Rho,\n                kappa AS Kappa,\n                user_stability AS UserStability,\n                user_friction AS UserFriction,\n                user_logic AS UserLogic,\n                user_autonomy AS UserAutonomy,\n                user_psi AS UserPsi,\n                model_stability AS ModelStability,\n                model_friction AS ModelFriction,\n                model_logic AS ModelLogic,\n                model_autonomy AS ModelAutonomy,\n                model_psi AS ModelPsi,\n                comp_stability AS CompStability,\n                comp_friction AS CompFriction,\n                comp_logic AS CompLogic,\n                comp_autonomy AS CompAutonomy,\n                comp_psi AS CompPsi,\n                0 AS ResonanceDelta\n            FROM temporal_node\n            WHERE session_id = $session_id\n                AND (tenant_id = $tenant_id OR tenant_id = NONE OR tenant_id = '')\n                AND (\n                    NOT $include_cursor\n                    OR updated_at > <datetime>$cursor_updated_at\n                    OR (\n                        updated_at = <datetime>$cursor_updated_at\n                        AND sync_key > $cursor_sync_key\n                    )\n                )\n            ORDER BY updated_at ASC, sync_key ASC\n            LIMIT ";
pub const CHANGES_SINCE_TAIL: &'static str = ";\n            ";
pub const UPSERT_CHECKPOINT_HEAD: &'static str = "\n            UPSERT sync_checkpoint:`";
pub const UPSERT_CHECKPOINT_AFTER_ID: &'static str = "` SET\n                tenant_id = $tenant_id,\n                session_id = $session_id,\n                connector_id = $connector_id,\n                cursor_updated_at = <datetime>$cursor_updated_at,\n                cursor_sync_key = $cursor_sync_key,\n                ";
pub const UPSERT_CHECKPOINT_TAIL: &'static str = "\n                updated_at = <datetime>$updated_at;\n            ";
pub const RECORD_TENANT_HEAD: &'static str = "\n            UPDATE ";
pub const RECORD_TENANT_TAIL: &'static str = "\n            SET tenant_id = $tenant_id;\n            ";
pub const INIT_SCHEMA_QUERY: &'static str = "\n            DEFINE TABLE IF NOT EXISTS temporal_node SCHEMAFULL;\n            DEFINE FIELD IF NOT EXISTS tenant_id         ON temporal_node TYPE string;\n            DEFINE FIELD IF NOT EXISTS session_id        ON temporal_node TYPE string;\n            DEFINE FIELD IF NOT EXISTS raw               ON temporal_node TYPE string;\n            DEFINE FIELD IF NOT EXISTS tier              ON temporal_node TYPE string;\n            DEFINE FIELD IF NOT EXISTS timestamp         ON temporal_node TYPE datetime;\n            DEFINE FIELD IF NOT EXISTS compression_depth ON temporal_node TYPE int;\n            DEFINE FIELD IF NOT EXISTS parent_node_id    ON temporal_node TYPE option<string>;\n            DEFINE FIELD IF NOT EXISTS sync_key          ON temporal_node TYPE string;\n            DEFINE FIELD IF NOT EXISTS updated_at        ON temporal_node TYPE datetime;\n            DEFINE FIELD IF NOT EXISTS source_metadata   ON temporal_node TYPE option<object>;\n            DEFINE FIELD IF NOT EXISTS context_summary   ON temporal_node TYPE option<string>;\n            DEFINE FIELD IF NOT EXISTS embedding         ON temporal_node TYPE option<array<float>>;\n            DEFINE FIELD IF NOT EXISTS embedding_model   ON temporal_node TYPE option<string>;\n            DEFINE FIELD IF NOT EXISTS embedding_dimensions ON temporal_node TYPE option<int>;\n            DEFINE FIELD IF NOT EXISTS embedded_at       ON temporal_node TYPE option<datetime>;\n            DEFINE FIELD IF NOT EXISTS psi               ON temporal_node TYPE float;\n            DEFINE FIELD IF NOT EXISTS rho               ON temporal_node TYPE float;\n            DEFINE FIELD IF NOT EXISTS kappa             ON temporal_node TYPE float;\n            DEFINE FIELD IF NOT EXISTS user_stability    ON temporal_node TYPE float;\n            DEFINE FIELD IF NOT EXISTS user_friction     ON temporal_node TYPE float;\n            DEFINE FIELD IF NOT EXISTS user_logic        ON temporal_node TYPE float;\n            DEFINE FIELD IF NOT EXISTS user_autonomy     ON temporal_node TYPE float;\n            DEFINE FIELD IF NOT EXISTS user_psi          ON temporal_node TYPE float;\n            DEFINE FIELD IF NOT EXISTS model_stability   ON temporal_node TYPE float;\n            DEFINE FIELD IF NOT EXISTS model_friction    ON temporal_node TYPE float;\n            DEFINE FIELD IF NOT EXISTS model_logic       ON temporal_node TYPE float;\n            DEFINE FIELD IF NOT EXISTS model_autonomy    ON temporal_node TYPE float;\n            DEFINE FIELD IF NOT EXISTS model_psi         ON temporal_node TYPE float;\n            DEFINE FIELD IF NOT EXISTS comp_stability    ON temporal_node TYPE float;\n            DEFINE FIELD IF NOT EXISTS comp_friction     ON temporal_node TYPE float;\n            DEFINE FIELD IF NOT EXISTS comp_logic        ON temporal_node TYPE float;\n            DEFINE FIELD IF NOT EXISTS comp_autonomy     ON temporal_node TYPE float;\n            DEFINE FIELD IF NOT EXISTS comp_psi          ON temporal_node TYPE float;\n\n            DEFINE TABLE IF NOT EXISTS calibration SCHEMAFULL;\n            DEFINE FIELD IF NOT EXISTS tenant_id   ON calibration TYPE string;\n            DEFINE FIELD IF NOT EXISTS session_id  ON calibration TYPE string;\n            DEFINE FIELD IF NOT EXISTS stability   ON calibration TYPE float;\n            DEFINE FIELD IF NOT EXISTS friction    ON calibration TYPE float;\n            DEFINE FIELD IF NOT EXISTS logic       ON calibration TYPE float;\n            DEFINE FIELD IF NOT EXISTS autonomy    ON calibration TYPE float;\n            DEFINE FIELD IF NOT EXISTS psi         ON calibration TYPE float;\n            DEFINE FIELD IF NOT EXISTS trigger     ON calibration TYPE string;\n            DEFINE FIELD IF NOT EXISTS created_at  ON calibration TYPE datetime;\n\n            DEFINE TABLE IF NOT EXISTS sync_checkpoint SCHEMAFULL;\n            DEFINE FIELD IF NOT EXISTS tenant_id          ON sync_checkpoint TYPE string;\n            DEFINE FIELD IF NOT EXISTS session_id         ON sync_checkpoint TYPE string;\n            DEFINE FIELD IF NOT EXISTS connector_id       ON sync_checkpoint TYPE string;\n            DEFINE FIELD IF NOT EXISTS cursor_updated_at  ON sync_checkpoint TYPE option<datetime>;\n            DEFINE FIELD IF NOT EXISTS cursor_sync_key    ON sync_checkpoint TYPE option<string>;\n            DEFINE FIELD IF NOT EXISTS metadata           ON sync_checkpoint TYPE option<object>;\n            DEFINE FIELD IF NOT EXISTS updated_at         ON sync_checkpoint TYPE datetime;\n\n            DEFINE INDEX IF NOT EXISTS idx_node_session ON temporal_node FIELDS session_id;\n            DEFINE INDEX IF NOT EXISTS idx_node_tenant_session ON temporal_node FIELDS tenant_id, session_id;\n            DEFINE INDEX IF NOT EXISTS idx_node_tier ON temporal_node FIELDS tier;\n            DEFINE INDEX IF NOT EXISTS idx_node_timestamp ON temporal_node FIELDS timestamp;\n            DEFINE INDEX IF NOT EXISTS idx_node_change_cursor ON temporal_node FIELDS tenant_id, session_id, updated_at, sync_key;\n            DEFINE INDEX IF NOT EXISTS idx_node_sync_identity ON temporal_node FIELDS tenant_id, session_id, sync_key UNIQUE;\n            DEFINE INDEX IF NOT EXISTS idx_cal_session ON calibration FIELDS session_id;\n            DEFINE INDEX IF NOT EXISTS idx_cal_tenant_session ON calibration FIELDS tenant_id, session_id;\n            DEFINE INDEX IF NOT EXISTS idx_checkpoint_scope ON sync_checkpoint FIELDS tenant_id, session_id, connector_id UNIQUE;\n            SELECT * FROM calibration LIMIT 0;\n            ";
pub const GET_LAST_AVEC_QUERY: &'static str = "\n            SELECT stability, friction, logic, autonomy, psi, created_at\n            FROM calibration\n                        WHERE session_id = $session_id\n                            AND (tenant_id = $tenant_id OR tenant_id = NONE OR tenant_id = '')\n            ORDER BY created_at DESC\n            LIMIT 1;\n            ";
pub const GET_TRIGGER_HISTORY_QUERY: &'static str = "\n            SELECT trigger, created_at FROM calibration\n                        WHERE session_id = $session_id\n                            AND (tenant_id = $tenant_id OR tenant_id = NONE OR tenant_id = '')\n            ORDER BY created_at ASC;\n            ";
pub const STORE_CALIBRATION_QUERY: &'static str = "\n            CREATE calibration SET\n                tenant_id = $tenant_id,\n                session_id = $session_id,\n                stability = $stability,\n                friction = $friction,\n                logic = $logic,\n                autonomy = $autonomy,\n                psi = $psi,\n                trigger = $trigger,\n                created_at = <datetime>$created_at;\n            ";
pub const SELECT_TEMPORAL_NODE_LEGACY_SYNC_QUERY: &'static str = "\n            SELECT id, session_id, timestamp, sync_key, updated_at\n            FROM temporal_node\n            WHERE tenant_id = NONE OR tenant_id = '' OR sync_key = NONE OR sync_key = '' OR updated_at = NONE;\n            ";
pub const FIND_EXISTING_NODE_BY_SYNC_KEY_QUERY: &'static str = "\n            SELECT\n                id AS Id,\n                source_metadata AS SourceMetadata,\n                context_summary AS ContextSummary,\n                embedding AS Embedding,\n                embedding_model AS EmbeddingModel,\n                embedding_dimensions AS EmbeddingDimensions,\n                embedded_at AS EmbeddedAt\n            FROM temporal_node\n            WHERE session_id = $session_id\n                AND sync_key = $sync_key\n                AND (tenant_id = $tenant_id OR tenant_id = NONE OR tenant_id = '')\n            LIMIT 1;\n            ";
pub const FIND_EXISTING_NODE_BY_SYNC_KEY_EXACT_QUERY: &'static str = "\n            SELECT\n                id AS Id,\n                source_metadata AS SourceMetadata,\n                context_summary AS ContextSummary,\n                embedding AS Embedding,\n                embedding_model AS EmbeddingModel,\n                embedding_dimensions AS EmbeddingDimensions,\n                embedded_at AS EmbeddedAt\n            FROM temporal_node\n            WHERE session_id = $session_id\n                AND sync_key = $sync_key\n                AND tenant_id = $tenant_id\n            LIMIT 1;\n            ";
pub const FIND_EXISTING_NODE_BY_SYNC_KEY_ANY_TENANT_QUERY: &'static str = "\n            SELECT\n                id AS Id,\n                source_metadata AS SourceMetadata,\n                context_summary AS ContextSummary,\n                embedding AS Embedding,\n                embedding_model AS EmbeddingModel,\n                embedding_dimensions AS EmbeddingDimensions,\n                embedded_at AS EmbeddedAt\n            FROM temporal_node\n            WHERE session_id = $session_id\n                AND sync_key = $sync_key\n            LIMIT 1;\n            ";
pub const GET_SYNC_CHECKPOINT_QUERY: &'static str = "\n            SELECT\n                session_id AS SessionId,\n                connector_id AS ConnectorId,\n                cursor_updated_at AS CursorUpdatedAt,\n                cursor_sync_key AS CursorSyncKey,\n                updated_at AS UpdatedAt,\n                metadata AS Metadata\n            FROM sync_checkpoint\n            WHERE session_id = $session_id\n                AND connector_id = $connector_id\n                AND (tenant_id = $tenant_id OR tenant_id = NONE OR tenant_id = '')\n            LIMIT 1;\n            ";
pub const SELECT_CALIBRATION_MISSING_TENANT_QUERY: &'static str = "\n            SELECT id, session_id\n            FROM calibration\n            WHERE tenant_id = NONE OR tenant_id = '';\n            ";
pub const SELECT_SCOPE_BY_NODE_ID_QUERY: &'static str = "\n                        SELECT\n                                tenant_id AS TenantId,\n                                session_id AS SessionId\n                        FROM temporal_node\n            WHERE id = type::record('temporal_node', $node_id)\n                        LIMIT 1;\n                        ";
pub const COUNT_TEMPORAL_SCOPE_QUERY: &'static str = "\n                        SELECT count() AS Count\n                        FROM temporal_node\n                        WHERE session_id = $session_id\n                            AND (tenant_id = $tenant_id OR ($include_legacy AND (tenant_id = NONE OR tenant_id = '')))\n                        LIMIT 1;\n                        ";
pub const COUNT_CALIBRATION_SCOPE_QUERY: &'static str = "\n                        SELECT count() AS Count\n                        FROM calibration\n                        WHERE session_id = $session_id\n                            AND (tenant_id = $tenant_id OR ($include_legacy AND (tenant_id = NONE OR tenant_id = '')))\n                        LIMIT 1;\n                        ";
pub const APPLY_SCOPE_REKEY_QUERY: &'static str = "\n                        BEGIN TRANSACTION;\n\n                        UPDATE temporal_node\n                        SET\n                                tenant_id = $target_tenant_id,\n                                session_id = $target_session_id\n                        WHERE session_id = $source_session_id\n                            AND (tenant_id = $source_tenant_id OR ($source_include_legacy AND (tenant_id = NONE OR tenant_id = '')));\n\n                        UPDATE calibration\n                        SET\n                                tenant_id = $target_tenant_id,\n                                session_id = $target_session_id\n                        WHERE session_id = $source_session_id\n                            AND (tenant_id = $source_tenant_id OR ($source_include_legacy AND (tenant_id = NONE OR tenant_id = '')));\n\n                        COMMIT TRANSACTION;\n                        ";

/// The assignment of an optional field: the named parameter where it is
/// given, `NONE` where it is not.
pub open spec fn param_or_none(given: bool, param: Seq<char>) -> Seq<char> {
    if given {
        param
    } else {
        "NONE"@
    }
}

fn param_or_none_exec(given: bool, param: &str) -> (r: &str)
    ensures
        r@ == param_or_none(given, param@),
{
    if given {
        param
    } else {
        "NONE"
    }
}

/// The context summary and embedding assignments of a node statement: each
/// given field from its parameter (the embedding time cast to a datetime),
/// the others `NONE`; all `NONE` where no embedding is assigned.
pub open spec fn embedding_assignments(
    include_embedding: bool,
    context_summary: bool,
    vector: bool,
    model: bool,
    dimensions: bool,
    embedded_at: bool,
) -> Seq<char> {
    if include_embedding {
        "\n                context_summary = "@ + param_or_none(context_summary, "$context_summary"@)
            + ",\n                embedding = "@ + param_or_none(vector, "$embedding"@)
            + ",\n                embedding_model = "@ + param_or_none(model, "$embedding_model"@)
            + ",\n                embedding_dimensions = "@ + param_or_none(
            dimensions,
            "$embedding_dimensions"@,
        ) + ",\n                embedded_at = "@ + param_or_none(
            embedded_at,
            "<datetime>$embedded_at"@,
        ) + ","@
    } else {
        "\n                context_summary = NONE,\n                embedding = NONE,\n                embedding_model = NONE,\n                embedding_dimensions = NONE,\n                embedded_at = NONE,"@
    }
}

fn push_embedding_assignments(
    q: &mut String,
    include_embedding: bool,
    context_summary: bool,
    vector: bool,
    model: bool,
    dimensions: bool,
    embedded_at: bool,
)
    ensures
        final(q)@ == old(q)@ + embedding_assignments(
            include_embedding,
            context_summary,
            vector,
            model,
            dimensions,
            embedded_at,
        ),
{
    if include_embedding {
        let mut e = string_of("\n                context_summary = ");
        push_str(&mut e, param_or_none_exec(context_summary, "$context_summary"));
        push_str(&mut e, ",\n                embedding = ");
        push_str(&mut e, param_or_none_exec(vector, "$embedding"));
        push_str(&mut e, ",\n                embedding_model = ");
        push_str(&mut e, param_or_none_exec(model, "$embedding_model"));
        push_str(&mut e, ",\n                embedding_dimensions = ");
        push_str(&mut e, param_or_none_exec(dimensions, "$embedding_dimensions"));
        push_str(&mut e, ",\n                embedded_at = ");
        push_str(&mut e, param_or_none_exec(embedded_at, "<datetime>$embedded_at"));
        push_str(&mut e, ",");
        push_str(q, e.as_str());
    } else {
        push_str(
            q,
            "\n                context_summary = NONE,\n                embedding = NONE,\n                embedding_model = NONE,\n                embedding_dimensions = NONE,\n                embedded_at = NONE,",
        );
    }
}

/// The node selection with the filter `where_clause`, newest first, at most
/// `capped_limit` rows.
pub open spec fn query_nodes_text(where_clause: Seq<char>, capped_limit: nat) -> Seq<char> {
    QUERY_NODES_HEAD@ + where_clause + QUERY_NODES_AFTER_WHERE@ + decimal_of(capped_limit)
        + QUERY_NODES_TAIL@
}

pub fn query_nodes_query(where_clause: &str, capped_limit: usize) -> (r: String)
    ensures
        r@ == query_nodes_text(where_clause@, capped_limit as nat),
{
    let mut q = string_of(QUERY_NODES_HEAD);
    push_str(&mut q, where_clause);
    push_str(&mut q, QUERY_NODES_AFTER_WHERE);
    push_decimal(&mut q, capped_limit);
    push_str(&mut q, QUERY_NODES_TAIL);
    q
}

/// The filters of a node query, joined by ` AND `.
pub open spec fn join_and(parts: Seq<Seq<char>>) -> Seq<char>
    decreases parts.len(),
{
    if parts.len() == 0 {
        Seq::empty()
    } else if parts.len() == 1 {
        parts[0]
    } else {
        join_and(parts.drop_last()) + " AND "@ + parts.last()
    }
}

pub const TENANT_FILTER: &'static str = "(tenant_id = $tenant_id OR tenant_id = NONE OR tenant_id = '')";
pub const SESSION_FILTER: &'static str = "session_id = $session_id";
pub const FROM_FILTER: &'static str = "timestamp >= <datetime>$from_utc";
pub const TO_FILTER: &'static str = "timestamp <= <datetime>$to_utc";

/// The filters of a node query: the tenant and the session where a session
/// is given, the earliest and the latest time where they are given.
pub open spec fn node_query_filters(session: bool, from: bool, to: bool) -> Seq<Seq<char>> {
    (if session {
        seq![TENANT_FILTER@, SESSION_FILTER@]
    } else {
        Seq::empty()
    }) + (if from {
        seq![FROM_FILTER@]
    } else {
        Seq::empty()
    }) + (if to {
        seq![TO_FILTER@]
    } else {
        Seq::empty()
    })
}

/// The `WHERE` clause of a node query: none without filters.
pub open spec fn node_query_where_text(session: bool, from: bool, to: bool) -> Seq<char> {
    let parts = node_query_filters(session, from, to);
    if parts.len() == 0 {
        Seq::empty()
    } else {
        "WHERE "@ + join_and(parts)
    }
}

fn append_filter(r: &mut String, parts: Ghost<Seq<Seq<char>>>, first: bool, filter: &str)
    requires
        old(r)@ == join_and(parts@),
        first == (parts@.len() == 0),
    ensures
        final(r)@ == join_and(parts@.push(filter@)),
{
    let ghost next = parts@.push(filter@);
    assert(next.drop_last() =~= parts@);
    if !first {
        push_str(r, " AND ");
    }
    push_str(r, filter);
    assert(parts@.len() == 0 ==> r@ =~= filter@);
}

/// The `WHERE` clause of a node query (see `node_query_where_text`).
pub fn node_query_where(session: bool, from: bool, to: bool) -> (r: String)
    ensures
        r@ == node_query_where_text(session, from, to),
{
    let mut r = String::new();
    let ghost mut parts: Seq<Seq<char>> = Seq::empty();
    assert(r@ =~= join_and(parts));
    if session {
        append_filter(&mut r, Ghost(parts), true, TENANT_FILTER);
        proof { parts = parts.push(TENANT_FILTER@); }
        append_filter(&mut r, Ghost(parts), false, SESSION_FILTER);
        proof { parts = parts.push(SESSION_FILTER@); }
    }
    if from {
        append_filter(&mut r, Ghost(parts), !session, FROM_FILTER);
        proof { parts = parts.push(FROM_FILTER@); }
    }
    if to {
        append_filter(&mut r, Ghost(parts), !session && !from, TO_FILTER);
        proof { parts = parts.push(TO_FILTER@); }
    }
    assert(parts =~= node_query_filters(session, from, to));
    if !session && !from && !to {
        String::new()
    } else {
        let mut w = string_of("WHERE ");
        push_str(&mut w, r.as_str());
        w
    }
}

/// The parent assignment of a node creation: present only where a parent
/// is given.
pub open spec fn create_parent_assignment(given: bool) -> Seq<char> {
    if given {
        "\n                parent_node_id = $parent_node_id,"@
    } else {
        Seq::empty()
    }
}

/// The source metadata assignment of a node creation: present only where
/// metadata is given.
pub open spec fn create_source_assignment(given: bool) -> Seq<char> {
    if given {
        "\n                source_metadata = $source_metadata,"@
    } else {
        Seq::empty()
    }
}

/// The creation of node record `record_id`.
pub open spec fn create_node_text(
    record_id: Seq<char>,
    parent: bool,
    source_metadata: bool,
    embedding: bool,
    context_summary: bool,
    vector: bool,
    model: bool,
    dimensions: bool,
    embedded_at: bool,
) -> Seq<char> {
    CREATE_NODE_HEAD@ + record_id + CREATE_NODE_AFTER_ID@ + create_parent_assignment(parent)
        + CREATE_NODE_AFTER_PARENT@ + create_source_assignment(source_metadata)
        + CREATE_NODE_AFTER_SOURCE@ + embedding_assignments(
        embedding,
        context_summary,
        vector,
        model,
        dimensions,
        embedded_at,
    ) + CREATE_NODE_TAIL@
}

pub fn create_temporal_node_query(
    record_id: &str,
    include_parent_assignment: bool,
    include_source_metadata_assignment: bool,
    include_embedding_assignment: bool,
    include_context_summary_assignment: bool,
    include_embedding_vector_assignment: bool,
    include_embedding_model_assignment: bool,
    include_embedding_dimensions_assignment: bool,
    include_embedded_at_assignment: bool,
) -> (r: String)
    ensures
        r@ == create_node_text(
            record_id@,
            include_parent_assignment,
            include_source_metadata_assignment,
            include_embedding_assignment,
            include_context_summary_assignment,
            include_embedding_vector_assignment,
            include_embedding_model_assignment,
            include_embedding_dimensions_assignment,
            include_embedded_at_assignment,
        ),
{
    let mut q = string_of(CREATE_NODE_HEAD);
    push_str(&mut q, record_id);
    push_str(&mut q, CREATE_NODE_AFTER_ID);
    if include_parent_assignment {
        push_str(&mut q, "\n                parent_node_id = $parent_node_id,");
    } else {
        assert(q@ =~= q@ + Seq::<char>::empty());
    }
    push_str(&mut q, CREATE_NODE_AFTER_PARENT);
    if include_source_metadata_assignment {
        push_str(&mut q, "\n                source_metadata = $source_metadata,");
    } else {
        assert(q@ =~= q@ + Seq::<char>::empty());
    }
    push_str(&mut q, CREATE_NODE_AFTER_SOURCE);
    push_embedding_assignments(
        &mut q,
        include_embedding_assignment,
        include_context_summary_assignment,
        include_embedding_vector_assignment,
        include_embedding_model_assignment,
        include_embedding_dimensions_assignment,
        include_embedded_at_assignment,
    );
    push_str(&mut q, CREATE_NODE_TAIL);
    q
}

/// The back-fill of tenant, sync key and update time on node record
/// `record_id`.
pub open spec fn legacy_sync_text(record_id: Seq<char>) -> Seq<char> {
    LEGACY_SYNC_HEAD@ + record_id + LEGACY_SYNC_TAIL@
}

pub fn update_temporal_node_legacy_sync_query(record_id: &str) -> (r: String)
    ensures
        r@ == legacy_sync_text(record_id@),
{
    let mut q = string_of(LEGACY_SYNC_HEAD);
    push_str(&mut q, record_id);
    push_str(&mut q, LEGACY_SYNC_TAIL);
    q
}

/// The update of the sync metadata of node record `record_id`: its source
/// metadata cleared or set from the parameter, and its update time.
pub open spec fn sync_metadata_text(record_id: Seq<char>, clear_source_metadata: bool) -> Seq<char> {
    SYNC_METADATA_HEAD@ + record_id + SYNC_METADATA_AFTER_ID@ + (if clear_source_metadata {
        "source_metadata = NONE,"@
    } else {
        "source_metadata = $source_metadata,"@
    }) + SYNC_METADATA_TAIL@
}

pub fn update_temporal_node_sync_metadata_query(record_id: &str, clear_source_metadata: bool) -> (r: String)
    ensures
        r@ == sync_metadata_text(record_id@, clear_source_metadata),
{
    let mut q = string_of(SYNC_METADATA_HEAD);
    push_str(&mut q, record_id);
    push_str(&mut q, SYNC_METADATA_AFTER_ID);
    if clear_source_metadata {
        push_str(&mut q, "source_metadata = NONE,");
    } else {
        push_str(&mut q, "source_metadata = $source_metadata,");
    }
    push_str(&mut q, SYNC_METADATA_TAIL);
    q
}

/// The replacement of the fields of node record `record_id`; a parent and
/// source metadata that are not given are cleared.
pub open spec fn update_node_text(
    record_id: Seq<char>,
    parent: bool,
    source_metadata: bool,
    embedding: bool,
    context_summary: bool,
    vector: bool,
    model: bool,
    dimensions: bool,
    embedded_at: bool,
) -> Seq<char> {
    UPDATE_NODE_HEAD@ + record_id + UPDATE_NODE_AFTER_ID@ + (if parent {
        "\n                parent_node_id = $parent_node_id,"@
    } else {
        "\n                parent_node_id = NONE,"@
    }) + UPDATE_NODE_AFTER_PARENT@ + (if source_metadata {
        "\n                source_metadata = $source_metadata,"@
    } else {
        "\n                source_metadata = NONE,"@
    }) + UPDATE_NODE_AFTER_SOURCE@ + embedding_assignments(
        embedding,
        context_summary,
        vector,
        model,
        dimensions,
        embedded_at,
    ) + UPDATE_NODE_TAIL@
}

/// The assignment of an optional field in a node update: its parameter
/// where the field is given, `NONE` (which clears it) where it is not.
pub open spec fn update_assignment(field: Seq<char>, given: bool) -> Seq<char> {
    "\n                "@ + field + " = "@ + (if given {
        "$"@ + field
    } else {
        "NONE"@
    }) + ","@
}

/// The assignment of an optional field in a node creation: as in an update
/// where the field is given, none at all where it is not.
pub open spec fn create_assignment(field: Seq<char>, given: bool) -> Seq<char> {
    if given {
        update_assignment(field, true)
    } else {
        Seq::empty()
    }
}

/// A statement on node record `record_id` under `verb`, with the given
/// parent, source metadata and embedding assignments.
pub open spec fn node_statement(
    verb: Seq<char>,
    record_id: Seq<char>,
    parent: Seq<char>,
    source_metadata: Seq<char>,
    embedding: Seq<char>,
) -> Seq<char> {
    "\n            "@ + verb + " temporal_node:`"@ + record_id + CREATE_NODE_AFTER_ID@ + parent
        + CREATE_NODE_AFTER_PARENT@ + source_metadata + CREATE_NODE_AFTER_SOURCE@ + embedding
        + CREATE_NODE_TAIL@
}

/// A node update is the node creation with `UPDATE` for `CREATE`: the same
/// statement, except that a parent or source metadata that is not given is
/// cleared with `NONE` where the creation leaves it out.  Where both are
/// given, the update is the creation text with its verb replaced.
pub proof fn lemma_update_is_create_with_update_verb(
    record_id: Seq<char>,
    parent: bool,
    source_metadata: bool,
    embedding: bool,
    context_summary: bool,
    vector: bool,
    model: bool,
    dimensions: bool,
    embedded_at: bool,
)
    ensures
        create_node_text(record_id, parent, source_metadata, embedding, context_summary, vector, model, dimensions, embedded_at)
            == node_statement(
            "CREATE"@,
            record_id,
            create_assignment("parent_node_id"@, parent),
            create_assignment("source_metadata"@, source_metadata),
            embedding_assignments(embedding, context_summary, vector, model, dimensions, embedded_at),
        ),
        update_node_text(record_id, parent, source_metadata, embedding, context_summary, vector, model, dimensions, embedded_at)
            == node_statement(
            "UPDATE"@,
            record_id,
            update_assignment("parent_node_id"@, parent),
            update_assignment("source_metadata"@, source_metadata),
            embedding_assignments(embedding, context_summary, vector, model, dimensions, embedded_at),
        ),
        parent && source_metadata ==> update_node_text(
            record_id,
            parent,
            source_metadata,
            embedding,
            context_summary,
            vector,
            model,
            dimensions,
            embedded_at,
        ) == "\n            UPDATE"@ + create_node_text(
            record_id,
            parent,
            source_metadata,
            embedding,
            context_summary,
            vector,
            model,
            dimensions,
            embedded_at,
        ).skip(19),
{
    reveal_strlit("\n            CREATE temporal_node:`");
    reveal_strlit("\n            UPDATE temporal_node:`");
    reveal_strlit("\n            ");
    reveal_strlit("\n            UPDATE");
    reveal_strlit("CREATE");
    reveal_strlit("UPDATE");
    reveal_strlit(" temporal_node:`");
    reveal_strlit("\n                ");
    reveal_strlit(" = ");
    reveal_strlit("$");
    reveal_strlit("NONE");
    reveal_strlit(",");
    reveal_strlit("parent_node_id");
    reveal_strlit("source_metadata");
    reveal_strlit("\n                parent_node_id = $parent_node_id,");
    reveal_strlit("\n                parent_node_id = NONE,");
    reveal_strlit("\n                source_metadata = $source_metadata,");
    reveal_strlit("\n                source_metadata = NONE,");
    let emb = embedding_assignments(embedding, context_summary, vector, model, dimensions, embedded_at);
    assert(CREATE_NODE_HEAD@ =~= "\n            "@ + "CREATE"@ + " temporal_node:`"@);
    assert(UPDATE_NODE_HEAD@ =~= "\n            "@ + "UPDATE"@ + " temporal_node:`"@);
    assert(create_parent_assignment(parent) =~= create_assignment("parent_node_id"@, parent));
    assert(create_source_assignment(source_metadata) =~= create_assignment("source_metadata"@, source_metadata));
    assert((if parent {
        "\n                parent_node_id = $parent_node_id,"@
    } else {
        "\n                parent_node_id = NONE,"@
    }) =~= update_assignment("parent_node_id"@, parent));
    assert((if source_metadata {
        "\n                source_metadata = $source_metadata,"@
    } else {
        "\n                source_metadata = NONE,"@
    }) =~= update_assignment("source_metadata"@, source_metadata));
    let c = create_node_text(record_id, parent, source_metadata, embedding, context_summary, vector, model, dimensions, embedded_at);
    let u = update_node_text(record_id, parent, source_metadata, embedding, context_summary, vector, model, dimensions, embedded_at);
    assert(c =~= node_statement("CREATE"@, record_id, create_assignment("parent_node_id"@, parent),
        create_assignment("source_metadata"@, source_metadata), emb));
    assert(u =~= node_statement("UPDATE"@, record_id, update_assignment("parent_node_id"@, parent),
        update_assignment("source_metadata"@, source_metadata), emb));
    if parent && source_metadata {
        assert(u =~= "\n            UPDATE"@ + c.skip(19));
    }
}

pub fn update_temporal_node_query(
    record_id: &str,
    include_parent_assignment: bool,
    include_source_metadata_assignment: bool,
    include_embedding_assignment: bool,
    include_context_summary_assignment: bool,
    include_embedding_vector_assignment: bool,
    include_embedding_model_assignment: bool,
    include_embedding_dimensions_assignment: bool,
    include_embedded_at_assignment: bool,
) -> (r: String)
    ensures
        r@ == update_node_text(
            record_id@,
            include_parent_assignment,
            include_source_metadata_assignment,
            include_embedding_assignment,
            include_context_summary_assignment,
            include_embedding_vector_assignment,
            include_embedding_model_assignment,
            include_embedding_dimensions_assignment,
            include_embedded_at_assignment,
        ),
{
    let mut q = string_of(UPDATE_NODE_HEAD);
    push_str(&mut q, record_id);
    push_str(&mut q, UPDATE_NODE_AFTER_ID);
    if include_parent_assignment {
        push_str(&mut q, "\n                parent_node_id = $parent_node_id,");
    } else {
        push_str(&mut q, "\n                parent_node_id = NONE,");
    }
    push_str(&mut q, UPDATE_NODE_AFTER_PARENT);
    if include_source_metadata_assignment {
        push_str(&mut q, "\n                source_metadata = $source_metadata,");
    } else {
        push_str(&mut q, "\n                source_metadata = NONE,");
    }
    push_str(&mut q, UPDATE_NODE_AFTER_SOURCE);
    push_embedding_assignments(
        &mut q,
        include_embedding_assignment,
        include_context_summary_assignment,
        include_embedding_vector_assignment,
        include_embedding_model_assignment,
        include_embedding_dimensions_assignment,
        include_embedded_at_assignment,
    );
    push_str(&mut q, UPDATE_NODE_TAIL);
    q
}

/// The changes of a scope after a cursor, oldest first, at most `limit`.
pub open spec fn changes_since_text(limit: nat) -> Seq<char> {
    CHANGES_SINCE_HEAD@ + decimal_of(limit) + CHANGES_SINCE_TAIL@
}

pub fn query_changes_since_query(limit: usize) -> (r: String)
    ensures
        r@ == changes_since_text(limit as nat),
{
    let mut q = string_of(CHANGES_SINCE_HEAD);
    push_decimal(&mut q, limit);
    push_str(&mut q, CHANGES_SINCE_TAIL);
    q
}

/// The upsert of checkpoint record `record_id`, its metadata set from the
/// parameter or cleared.
pub open spec fn upsert_checkpoint_text(record_id: Seq<char>, include_metadata: bool) -> Seq<char> {
    UPSERT_CHECKPOINT_HEAD@ + record_id + UPSERT_CHECKPOINT_AFTER_ID@ + (if include_metadata {
        "metadata = $metadata,"@
    } else {
        "metadata = NONE,"@
    }) + UPSERT_CHECKPOINT_TAIL@
}

pub fn upsert_sync_checkpoint_query(record_id: &str, include_metadata_assignment: bool) -> (r: String)
    ensures
        r@ == upsert_checkpoint_text(record_id@, include_metadata_assignment),
{
    let mut q = string_of(UPSERT_CHECKPOINT_HEAD);
    push_str(&mut q, record_id);
    push_str(&mut q, UPSERT_CHECKPOINT_AFTER_ID);
    if include_metadata_assignment {
        push_str(&mut q, "metadata = $metadata,");
    } else {
        push_str(&mut q, "metadata = NONE,");
    }
    push_str(&mut q, UPSERT_CHECKPOINT_TAIL);
    q
}

/// The tenant assignment of record `record_id` (a full record id).
pub open spec fn record_tenant_text(record_id: Seq<char>) -> Seq<char> {
    RECORD_TENANT_HEAD@ + record_id + RECORD_TENANT_TAIL@
}

pub fn update_record_tenant_query(record_id: &str) -> (r: String)
    ensures
        r@ == record_tenant_text(record_id@),
{
    let mut q = string_of(RECORD_TENANT_HEAD);
    push_str(&mut q, record_id);
    push_str(&mut q, RECORD_TENANT_TAIL);
    q
}

} // verus!
