//! Confidence labels for recovery scores.

use vstd::prelude::*;

verus! {

/// The label shown for a 0–100 score.
pub open spec fn spec_label(score: u8) -> Seq<char> {
    if 95 <= score && score <= 100 {
        "Perfect Recovery"@
    } else if 75 <= score && score <= 94 {
        "Likely Recoverable"@
    } else if 50 <= score && score <= 74 {
        "Partial Recovery"@
    } else {
        "Try Advanced Mode"@
    }
}

/// The user-facing label of a 0–100 score.
pub fn label(score: u8) -> (r: &'static str)
    ensures
        r@ == spec_label(score),
{
    if 95 <= score && score <= 100 {
        "Perfect Recovery"
    } else if 75 <= score && score <= 94 {
        "Likely Recoverable"
    } else if 50 <= score && score <= 74 {
        "Partial Recovery"
    } else {
        "Try Advanced Mode"
    }
}

/// The confidence level of a 0–100 final score.
pub open spec fn spec_confidence_level(score: u8) -> Seq<char> {
    if 95 <= score && score <= 100 {
        "PERFECT"@
    } else if 80 <= score && score <= 94 {
        "HIGH"@
    } else if 60 <= score && score <= 79 {
        "MEDIUM"@
    } else if 1 <= score && score <= 59 {
        "LOW"@
    } else if score == 0 {
        "UNRECOVERABLE"@
    } else {
        "UNKNOWN"@
    }
}

/// The confidence level of a 0–100 score.
pub fn confidence_level(score: u8) -> (r: &'static str)
    ensures
        r@ == spec_confidence_level(score),
{
    if 95 <= score && score <= 100 {
        "PERFECT"
    } else if 80 <= score && score <= 94 {
        "HIGH"
    } else if 60 <= score && score <= 79 {
        "MEDIUM"
    } else if 1 <= score && score <= 59 {
        "LOW"
    } else if score == 0 {
        "UNRECOVERABLE"
    } else {
        "UNKNOWN"
    }
}

} // verus!
