//! Domain values shared by the validator, the services and the stores that
//! hold no floating-point data.
use vstd::prelude::*;
use crate::node_fields::opt_string;
use crate::text::string_of;

verus! {

#[derive(Debug, Clone, Copy, PartialEq, Eq, Structural)]
pub enum DriftClassification {
    Intentional,
    Uncontrolled,
}

#[derive(Debug, Clone, Copy, PartialEq, Eq, Structural)]
pub enum ValidationFailureReason {
    /// No failure (displayed as `None`).
    NoFailure,
    ParseFailure,
    CoherenceFailure,
    MissingLayer,
    InvalidTier,
    NestingDepth,
    SchemaViolation,
}

/// The name of a failure reason, as it is displayed.
pub open spec fn reason_name(r: ValidationFailureReason) -> Seq<char> {
    match r {
        ValidationFailureReason::NoFailure => "None"@,
        ValidationFailureReason::ParseFailure => "ParseFailure"@,
        ValidationFailureReason::CoherenceFailure => "CoherenceFailure"@,
        ValidationFailureReason::MissingLayer => "MissingLayer"@,
        ValidationFailureReason::InvalidTier => "InvalidTier"@,
        ValidationFailureReason::NestingDepth => "NestingDepth"@,
        ValidationFailureReason::SchemaViolation => "SchemaViolation"@,
    }
}

impl ValidationFailureReason {
    /// The displayed name of the reason.
    pub fn to_string(&self) -> (r: String)
        ensures
            r@ == reason_name(*self),
    {
        match self {
            ValidationFailureReason::NoFailure => string_of("None"),
            ValidationFailureReason::ParseFailure => string_of("ParseFailure"),
            ValidationFailureReason::CoherenceFailure => string_of("CoherenceFailure"),
            ValidationFailureReason::MissingLayer => string_of("MissingLayer"),
            ValidationFailureReason::InvalidTier => string_of("InvalidTier"),
            ValidationFailureReason::NestingDepth => string_of("NestingDepth"),
            ValidationFailureReason::SchemaViolation => string_of("SchemaViolation"),
        }
    }
}

/// The verdict of validating a node text.
#[derive(Debug, Clone)]
pub struct ValidationResult {
    pub is_valid: bool,
    pub error: Option<String>,
    pub reason: ValidationFailureReason,
}

pub open spec fn validation_view(r: ValidationResult) -> (bool, Option<Seq<char>>, ValidationFailureReason) {
    (r.is_valid, opt_string(r.error), r.reason)
}

impl ValidationResult {
    /// A valid verdict.
    pub fn ok() -> (r: Self)
        ensures
            validation_view(r) == (true, Option::<Seq<char>>::None, ValidationFailureReason::NoFailure),
    {
        ValidationResult { is_valid: true, error: None, reason: ValidationFailureReason::NoFailure }
    }

    /// A failed verdict with its message and reason.
    pub fn fail(error: String, reason: ValidationFailureReason) -> (r: Self)
        ensures
            validation_view(r) == (false, Some(error@), reason),
    {
        ValidationResult { is_valid: false, error: Some(error), reason }
    }
}

/// Counts of nodes by confidence band.
#[derive(Debug, Clone, Copy, PartialEq, Eq, Default)]
pub struct ConfidenceBandSummary {
    pub low: usize,
    pub medium: usize,
    pub high: usize,
}

} // verus!
