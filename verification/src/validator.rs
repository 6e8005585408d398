//! Structural validation of STTP node text: all four layers present and in
//! spine order, a known tier, and content objects nested at most five
//! deep.
use vstd::prelude::*;
use vstd::string::StrSliceExecFns;
use crate::lexicon::{layer_order, layer_order_vec, marker_chars, marker_vec, LayerKind};
use crate::models::{validation_view, ValidationFailureReason, ValidationResult};
use crate::node_fields::{tier_name_exec, tier_names};
use crate::text::{
    ascii_lower_chars, ascii_lower_seq, chars_of, contains_seq, decimal_of, find_from,
    first_match, lemma_contains_iff_first_match, lemma_first_match_some, push_decimal, push_str,
    string_of, trim, trim_bounds,
};

verus! {

pub struct TreeSitterValidator;

// ---------------------------------------------------------------------------
// Nesting depth

/// Brace depth after reading `s`, and the greatest depth reached; a `}`
/// never takes the depth below 0.
pub open spec fn nest_scan(s: Seq<char>) -> (nat, nat)
    decreases s.len(),
{
    if s.len() == 0 {
        (0, 0)
    } else {
        let (d, m) = nest_scan(s.drop_last());
        let c = s.last();
        if c == '{' {
            (d + 1, if d + 1 > m {
                d + 1
            } else {
                m
            })
        } else if c == '}' {
            (if d == 0 {
                0
            } else {
                (d - 1) as nat
            }, m)
        } else {
            (d, m)
        }
    }
}

/// The deepest brace nesting reached in `s`.
pub open spec fn nesting_depth_of(s: Seq<char>) -> nat {
    nest_scan(s).1
}

proof fn lemma_nest_scan_bound(s: Seq<char>)
    ensures
        nest_scan(s).0 <= s.len(),
        nest_scan(s).1 <= s.len(),
    decreases s.len(),
{
    if s.len() > 0 {
        lemma_nest_scan_bound(s.drop_last());
    }
}

fn nesting_depth_range(v: &Vec<char>, lo: usize, hi: usize) -> (r: usize)
    requires
        lo <= hi <= v@.len(),
    ensures
        r == nesting_depth_of(v@.subrange(lo as int, hi as int)),
{
    let mut depth: usize = 0;
    let mut max_depth: usize = 0;
    let mut i = lo;
    assert(v@.subrange(lo as int, lo as int).len() == 0);
    while i < hi
        invariant
            lo <= i <= hi <= v@.len(),
            (depth as nat, max_depth as nat) == nest_scan(v@.subrange(lo as int, i as int)),
        decreases hi - i,
    {
        proof {
            lemma_nest_scan_bound(v@.subrange(lo as int, i as int));
            assert(v@.subrange(lo as int, i + 1).drop_last() =~= v@.subrange(lo as int, i as int));
        }
        let c = v[i];
        if c == '{' {
            depth = depth + 1;
            if depth > max_depth {
                max_depth = depth;
            }
        } else if c == '}' {
            if depth > 0 {
                depth = depth - 1;
            }
        }
        i = i + 1;
    }
    max_depth
}

/// The deepest brace nesting reached in `block`.
pub fn max_nesting_depth(block: &str) -> (r: usize)
    ensures
        r == nesting_depth_of(block@),
{
    let v = chars_of(block);
    proof {
        assert(v@.subrange(0, v@.len() as int) =~= v@);
    }
    nesting_depth_range(&v, 0, v.len())
}

// ---------------------------------------------------------------------------
// The content block

/// Character bounds of the content block: from the first content marker to
/// the first metrics marker, where the latter comes after the former.
pub open spec fn content_block_bounds(s: Seq<char>) -> Option<(int, int)> {
    match (
        first_match(s, marker_chars(LayerKind::Content), 0),
        first_match(s, marker_chars(LayerKind::Metrics), 0),
    ) {
        (Some(a), Some(b)) => if b <= a {
            None
        } else {
            Some((a, b))
        },
        _ => None,
    }
}

fn content_block_range(v: &Vec<char>) -> (r: Option<(usize, usize)>)
    ensures
        match r {
            Some((a, b)) => content_block_bounds(v@) == Some((a as int, b as int)) && a < b
                <= v@.len(),
            None => content_block_bounds(v@) is None,
        },
{
    let cm = marker_vec(LayerKind::Content);
    let mm = marker_vec(LayerKind::Metrics);
    let a = match find_from(v, &cm, 0) {
        Some(a) => a,
        None => return None,
    };
    let b = match find_from(v, &mm, 0) {
        Some(b) => b,
        None => return None,
    };
    proof {
        lemma_first_match_some(v@, mm@, 0);
    }
    if b <= a {
        None
    } else {
        Some((a, b))
    }
}

/// The content block of `raw`: from the first content marker up to the
/// first metrics marker.
pub fn extract_content_block(raw: &str) -> (r: Option<&str>)
    ensures
        match content_block_bounds(raw@) {
            Some((a, b)) => r matches Some(t) && t@ == raw@.subrange(a, b),
            None => r is None,
        },
{
    let v = chars_of(raw);
    match content_block_range(&v) {
        Some((a, b)) => Some(raw.substring_char(a, b)),
        None => None,
    }
}

// ---------------------------------------------------------------------------
// Validation

/// The first layer, in spine order from the `k`-th, whose marker `s` lacks.
pub open spec fn missing_layer_from(s: Seq<char>, k: int) -> Option<LayerKind>
    decreases 4 - k,
{
    if k < 0 || k >= 4 {
        None
    } else if !contains_seq(s, marker_chars(layer_order()[k])) {
        Some(layer_order()[k])
    } else {
        missing_layer_from(s, k + 1)
    }
}

/// The first occurrence of each layer marker comes after that of the layer
/// before it.
pub open spec fn markers_in_order(s: Seq<char>) -> bool {
    let p = first_match(s, marker_chars(LayerKind::Provenance), 0)->0;
    let e = first_match(s, marker_chars(LayerKind::Envelope), 0)->0;
    let c = first_match(s, marker_chars(LayerKind::Content), 0)->0;
    let m = first_match(s, marker_chars(LayerKind::Metrics), 0)->0;
    p < e && e < c && c < m
}

/// The ASCII-lowercased text names a tier as `tier: <name>`.
pub open spec fn names_valid_tier(s: Seq<char>) -> bool {
    exists|i: int| 0 <= i < 6 && contains_seq(ascii_lower_seq(s), "tier: "@ + tier_names()[i])
}

pub open spec fn fail_view(msg: Seq<char>, reason: ValidationFailureReason) -> (bool, Option<Seq<char>>, ValidationFailureReason) {
    (false, Some(msg), reason)
}

/// The verdict on `s`, checks in order: not blank; every layer marker
/// present; markers in spine order; a known tier; content nesting at most 5.
pub open spec fn validation_of(s: Seq<char>) -> (bool, Option<Seq<char>>, ValidationFailureReason) {
    if trim(s).len() == 0 {
        fail_view("Node is empty"@, ValidationFailureReason::ParseFailure)
    } else if missing_layer_from(s, 0) is Some {
        fail_view(
            "Missing required layer: "@ + marker_chars(missing_layer_from(s, 0)->0),
            ValidationFailureReason::MissingLayer,
        )
    } else if !markers_in_order(s) {
        fail_view(
            "Layer order violation - required: ⊕ -> ⦿ -> ◈ -> ⍉"@,
            ValidationFailureReason::SchemaViolation,
        )
    } else if !names_valid_tier(s) {
        fail_view(
            "Invalid tier - expected one of: raw|daily|weekly|monthly|quarterly|yearly"@,
            ValidationFailureReason::InvalidTier,
        )
    } else if content_block_bounds(s) matches Some((a, b)) && nesting_depth_of(s.subrange(a, b))
        > 5 {
        let (a, b) = content_block_bounds(s)->0;
        fail_view(
            "Content nesting depth "@ + decimal_of(nesting_depth_of(s.subrange(a, b)))
                + " exceeds maximum of 5"@,
            ValidationFailureReason::NestingDepth,
        )
    } else {
        (true, None, ValidationFailureReason::NoFailure)
    }
}

/// A text that names one of the six tiers `raw`, `daily`, `weekly`,
/// `monthly`, `quarterly`, `yearly` as `tier: <name>`, in any ASCII case,
/// passes the tier check.  With its four layer markers present in spine
/// order and its content nested at most 5 deep, it is valid.
pub proof fn lemma_named_tier_is_valid(s: Seq<char>, t: Seq<char>)
    requires
        t == "raw"@ || t == "daily"@ || t == "weekly"@ || t == "monthly"@ || t == "quarterly"@
            || t == "yearly"@,
        contains_seq(ascii_lower_seq(s), "tier: "@ + t),
    ensures
        names_valid_tier(s),
        ({
            &&& contains_seq(s, marker_chars(LayerKind::Provenance))
            &&& contains_seq(s, marker_chars(LayerKind::Envelope))
            &&& contains_seq(s, marker_chars(LayerKind::Content))
            &&& contains_seq(s, marker_chars(LayerKind::Metrics))
            &&& markers_in_order(s)
            &&& !(content_block_bounds(s) matches Some((a, b)) && nesting_depth_of(s.subrange(a, b)) > 5)
        }) ==> validation_of(s) == (true, None::<Seq<char>>, ValidationFailureReason::NoFailure),
{
    let names = tier_names();
    assert(names[0] == "raw"@ && names[1] == "daily"@ && names[2] == "weekly"@);
    assert(names[3] == "monthly"@ && names[4] == "quarterly"@ && names[5] == "yearly"@);
    let i: int = if t == "raw"@ { 0 } else if t == "daily"@ { 1 } else if t == "weekly"@ { 2 }
        else if t == "monthly"@ { 3 } else if t == "quarterly"@ { 4 } else { 5 };
    assert(names[i] == t);
    assert(contains_seq(ascii_lower_seq(s), "tier: "@ + names[i]));
    if contains_seq(s, marker_chars(LayerKind::Provenance)) && contains_seq(s, marker_chars(LayerKind::Envelope))
        && contains_seq(s, marker_chars(LayerKind::Content)) && contains_seq(s, marker_chars(LayerKind::Metrics)) {
        assert(layer_order()[0] == LayerKind::Provenance && layer_order()[1] == LayerKind::Envelope);
        assert(layer_order()[2] == LayerKind::Content && layer_order()[3] == LayerKind::Metrics);
        assert(missing_layer_from(s, 4) is None);
        assert(missing_layer_from(s, 3) is None);
        assert(missing_layer_from(s, 2) is None);
        assert(missing_layer_from(s, 1) is None);
        assert(missing_layer_from(s, 0) is None);
        crate::text::lemma_contains_iff_first_match(s, marker_chars(LayerKind::Provenance));
        crate::text::lemma_first_match_some(s, marker_chars(LayerKind::Provenance), 0);
        let p = first_match(s, marker_chars(LayerKind::Provenance), 0)->0;
        assert(s.subrange(p, p + 2)[0] == s[p]);
        assert(trim(s).len() > 0) by {
            crate::text::lemma_lead_ws(s);
            crate::text::lemma_trail_ws(s);
            assert(s[p] == '⊕');
            if crate::text::lead_ws(s) == s.len() {
                assert(crate::text::is_ws(s[p]));
            }
        }
    }
}

fn first_marker(v: &Vec<char>, kind: LayerKind) -> (r: usize)
    requires
        contains_seq(v@, marker_chars(kind)),
    ensures
        first_match(v@, marker_chars(kind), 0) == Some(r as int),
{
    proof {
        lemma_contains_iff_first_match(v@, marker_chars(kind));
    }
    let m = marker_vec(kind);
    find_from(v, &m, 0).unwrap()
}

fn names_valid_tier_exec(v: &Vec<char>) -> (r: bool)
    ensures
        r == names_valid_tier(v@),
{
    let lower = ascii_lower_chars(v);
    let mut i: usize = 0;
    while i < 6
        invariant
            i <= 6,
            lower@ == ascii_lower_seq(v@),
            forall|j: int| 0 <= j < i ==> !contains_seq(lower@, #[trigger] ("tier: "@ + tier_names()[j])),
        decreases 6 - i,
    {
        let mut pat = chars_of("tier: ");
        let mut name = tier_name_exec(i);
        pat.append(&mut name);
        let found = find_from(&lower, &pat, 0);
        proof {
            lemma_contains_iff_first_match(lower@, pat@);
        }
        if found.is_some() {
            return true;
        }
        i = i + 1;
    }
    false
}

impl TreeSitterValidator {
    /// The structural verdict on a node text (see `validation_of`).
    pub fn validate(&self, raw_node: &str) -> (r: ValidationResult)
        ensures
            validation_view(r) == validation_of(raw_node@),
    {
        let v = chars_of(raw_node);
        let (a, b) = trim_bounds(&v, 0, v.len());
        proof {
            assert(v@.subrange(0, v@.len() as int) =~= v@);
        }
        if a == b {
            return ValidationResult::fail(string_of("Node is empty"), ValidationFailureReason::ParseFailure);
        }
        assert(trim(raw_node@).len() > 0);
        let order = layer_order_vec();
        let mut k: usize = 0;
        while k < 4
            invariant
                k <= 4,
                order@ == layer_order(),
                v@ == raw_node@,
                trim(raw_node@).len() > 0,
                missing_layer_from(v@, 0) == missing_layer_from(v@, k as int),
            decreases 4 - k,
        {
            let kind = order[k];
            let m = marker_vec(kind);
            let found = find_from(&v, &m, 0);
            proof {
                lemma_contains_iff_first_match(v@, m@);
            }
            if found.is_none() {
                assert(kind == layer_order()[k as int]);
                assert(missing_layer_from(v@, k as int) == Some(kind));
                let mut msg = string_of("Missing required layer: ");
                push_str(&mut msg, kind.marker());
                return ValidationResult::fail(msg, ValidationFailureReason::MissingLayer);
            }
            k = k + 1;
        }
        proof {
            assert(missing_layer_from(v@, 4) is None);
            assert(contains_seq(v@, marker_chars(layer_order()[0])));
            assert(missing_layer_from(v@, 1) is None);
            assert(contains_seq(v@, marker_chars(layer_order()[1])));
            assert(missing_layer_from(v@, 2) is None);
            assert(contains_seq(v@, marker_chars(layer_order()[2])));
            assert(missing_layer_from(v@, 3) is None);
            assert(contains_seq(v@, marker_chars(layer_order()[3])));
        }
        let p = first_marker(&v, LayerKind::Provenance);
        let e = first_marker(&v, LayerKind::Envelope);
        let c = first_marker(&v, LayerKind::Content);
        let m = first_marker(&v, LayerKind::Metrics);
        if !(p < e && e < c && c < m) {
            return ValidationResult::fail(
                string_of("Layer order violation - required: ⊕ -> ⦿ -> ◈ -> ⍉"),
                ValidationFailureReason::SchemaViolation,
            );
        }
        if !names_valid_tier_exec(&v) {
            return ValidationResult::fail(
                string_of("Invalid tier - expected one of: raw|daily|weekly|monthly|quarterly|yearly"),
                ValidationFailureReason::InvalidTier,
            );
        }
        match content_block_range(&v) {
            Some((x, y)) => {
                let depth = nesting_depth_range(&v, x, y);
                if depth > 5 {
                    let mut msg = string_of("Content nesting depth ");
                    push_decimal(&mut msg, depth);
                    push_str(&mut msg, " exceeds maximum of 5");
                    return ValidationResult::fail(msg, ValidationFailureReason::NestingDepth);
                }
            },
            None => {},
        }
        ValidationResult::ok()
    }
}

} // verus!
