//! How completely a file's data could be reconstructed from what the
//! filesystem metadata points at.

use vstd::prelude::*;
use crate::text::ascii_lower;
use vstd::string::StringSliceAdditionalSpecFns;

verus! {

/// The reconstruction state of a recovered file.
#[derive(Clone, Copy, PartialEq, Eq, Structural, Debug)]
pub enum ReconstructionState {
    ContiguousVerified,
    ChainVerified,
    FragmentedReconstructed,
    Partial,
    Corrupted,
    Unreadable,
    Unsupported,
}

/// The outcome of an assessment. Coverage is the exact fraction
/// `coverage_num / coverage_den` of the expected bytes that was recovered,
/// capped at one.
pub struct FragmentAssessment {
    pub state: ReconstructionState,
    pub coverage_num: u64,
    pub coverage_den: u64,
    pub verified_ranges: usize,
    pub missing_ranges: usize,
}

/// The reconstructor for a filesystem's evidence.
pub struct FragmentReconstructor {
    pub filesystem_evidence: String,
}

/// The filesystem formats whose evidence can drive reconstruction, as
/// lower-case names.
pub open spec fn supported_format_name(lower: Seq<u8>) -> bool {
    lower == seq![0x6Eu8, 0x74, 0x66, 0x73]
        || lower == seq![0x66u8, 0x61, 0x74, 0x33, 0x32]
        || lower == seq![0x65u8, 0x78, 0x74, 0x34]
        || lower == seq![0x65u8, 0x78, 0x66, 0x61, 0x74]
        || lower == seq![0x61u8, 0x70, 0x66, 0x73]
        || lower == seq![0x68u8, 0x66, 0x73, 0x2B]
}

/// The bytes with ASCII letters lower-cased.
pub open spec fn lower_bytes(s: Seq<u8>) -> Seq<u8> {
    s.map_values(|b: u8| ascii_lower(b))
}

impl FragmentReconstructor {
    /// A reconstructor relying on the named filesystem evidence.
    pub fn new(evidence: &str) -> (r: Self)
        ensures
            r.filesystem_evidence@ == evidence@,
    {
        FragmentReconstructor { filesystem_evidence: crate::text::owned(evidence) }
    }

    /// Whether `format` (any case) is one of ntfs, fat32, ext4, exfat, apfs,
    /// hfs+.
    pub fn validate_format(&self, format: &str) -> (r: bool)
        ensures
            r == supported_format_name(lower_bytes(format.spec_bytes())),
    {
        let b = format.as_bytes();
        let mut low: Vec<u8> = Vec::new();
        let mut i: usize = 0;
        while i < b.len()
            invariant
                i <= b@.len(),
                low@ == lower_bytes(b@.subrange(0, i as int)),
            decreases b@.len() - i,
        {
            let c = b[i];
            low.push(if 0x41 <= c && c <= 0x5A { c + 32 } else { c });
            i = i + 1;
            assert(low@ =~= lower_bytes(b@.subrange(0, i as int)));
        }
        assert(b@.subrange(0, b@.len() as int) =~= b@);
        let l = low.as_slice();
        crate::bytes::eq_bytes(l, &[0x6Eu8, 0x74, 0x66, 0x73])
            || crate::bytes::eq_bytes(l, &[0x66u8, 0x61, 0x74, 0x33, 0x32])
            || crate::bytes::eq_bytes(l, &[0x65u8, 0x78, 0x74, 0x34])
            || crate::bytes::eq_bytes(l, &[0x65u8, 0x78, 0x66, 0x61, 0x74])
            || crate::bytes::eq_bytes(l, &[0x61u8, 0x70, 0x66, 0x73])
            || crate::bytes::eq_bytes(l, &[0x68u8, 0x66, 0x73, 0x2B])
    }
}

/// The assessment of a file of `expected` bytes of which `recovered` were
/// recovered over `range_count` ranges. An unsupported format, or a failed
/// read that recovered nothing, says so and misses everything. Otherwise
/// coverage is `recovered / expected` capped at one (one for an empty
/// file); at 99.9% or more with a verified chain the file is contiguous
/// (one range), fragmented (several) or chain-verified (none); from 50% on
/// it is partial, below that corrupted; one range counts as missing
/// whenever coverage is below 99.9%.
pub open spec fn spec_assess(
    expected: u64,
    recovered: u64,
    verified_chain: bool,
    range_count: usize,
    read_ok: bool,
    supported_format: bool,
) -> (ReconstructionState, u64, u64, usize, usize) {
    let at_least_one = if range_count > 1 { range_count } else { 1 };
    if !supported_format {
        (ReconstructionState::Unsupported, 0, 1, 0, at_least_one)
    } else if !read_ok && recovered == 0 {
        (ReconstructionState::Unreadable, 0, 1, 0, at_least_one)
    } else {
        let (num, den) = if expected == 0 {
            (1u64, 1u64)
        } else {
            (if recovered < expected { recovered } else { expected }, expected)
        };
        let full = 1000 * (num as int) >= 999 * (den as int);
        let half = 2 * (num as int) >= den as int;
        let state = if full && verified_chain {
            if range_count == 1 {
                ReconstructionState::ContiguousVerified
            } else if range_count > 1 {
                ReconstructionState::FragmentedReconstructed
            } else {
                ReconstructionState::ChainVerified
            }
        } else if half {
            ReconstructionState::Partial
        } else {
            ReconstructionState::Corrupted
        };
        (state, num, den, range_count, if full { 0 } else { 1 })
    }
}

pub open spec fn assessment_view(a: FragmentAssessment) -> (ReconstructionState, u64, u64, usize, usize) {
    (a.state, a.coverage_num, a.coverage_den, a.verified_ranges, a.missing_ranges)
}

/// Assesses a reconstruction (see `spec_assess`).
pub fn assess(
    expected: u64,
    recovered: u64,
    verified_chain: bool,
    range_count: usize,
    read_ok: bool,
    supported_format: bool,
) -> (r: FragmentAssessment)
    ensures
        assessment_view(r) == spec_assess(expected, recovered, verified_chain, range_count, read_ok, supported_format),
{
    let at_least_one = if range_count > 1 { range_count } else { 1 };
    if !supported_format {
        return FragmentAssessment {
            state: ReconstructionState::Unsupported,
            coverage_num: 0,
            coverage_den: 1,
            verified_ranges: 0,
            missing_ranges: at_least_one,
        };
    }
    if !read_ok && recovered == 0 {
        return FragmentAssessment {
            state: ReconstructionState::Unreadable,
            coverage_num: 0,
            coverage_den: 1,
            verified_ranges: 0,
            missing_ranges: at_least_one,
        };
    }
    let (num, den): (u64, u64) = if expected == 0 {
        (1, 1)
    } else {
        (if recovered < expected { recovered } else { expected }, expected)
    };
    let full = 1000 * (num as u128) >= 999 * (den as u128);
    let half = 2 * (num as u128) >= den as u128;
    let state = if full && verified_chain {
        if range_count == 1 {
            ReconstructionState::ContiguousVerified
        } else if range_count > 1 {
            ReconstructionState::FragmentedReconstructed
        } else {
            ReconstructionState::ChainVerified
        }
    } else if half {
        ReconstructionState::Partial
    } else {
        ReconstructionState::Corrupted
    };
    FragmentAssessment {
        state,
        coverage_num: num,
        coverage_den: den,
        verified_ranges: range_count,
        missing_ranges: if full { 0 } else { 1 },
    }
}

/// The state's name in upper case, as reports print it.
pub open spec fn spec_state_upper(s: ReconstructionState) -> Seq<char> {
    match s {
        ReconstructionState::ContiguousVerified => "CONTIGUOUSVERIFIED"@,
        ReconstructionState::ChainVerified => "CHAINVERIFIED"@,
        ReconstructionState::FragmentedReconstructed => "FRAGMENTEDRECONSTRUCTED"@,
        ReconstructionState::Partial => "PARTIAL"@,
        ReconstructionState::Corrupted => "CORRUPTED"@,
        ReconstructionState::Unreadable => "UNREADABLE"@,
        ReconstructionState::Unsupported => "UNSUPPORTED"@,
    }
}

/// The variant name in upper case (`format!("{:?}", s).to_uppercase()`).
pub fn state_upper(s: ReconstructionState) -> (r: String)
    ensures
        r@ == spec_state_upper(s),
{
    let t = match s {
        ReconstructionState::ContiguousVerified => "CONTIGUOUSVERIFIED",
        ReconstructionState::ChainVerified => "CHAINVERIFIED",
        ReconstructionState::FragmentedReconstructed => "FRAGMENTEDRECONSTRUCTED",
        ReconstructionState::Partial => "PARTIAL",
        ReconstructionState::Corrupted => "CORRUPTED",
        ReconstructionState::Unreadable => "UNREADABLE",
        ReconstructionState::Unsupported => "UNSUPPORTED",
    };
    crate::text::owned(t)
}

} // verus!
