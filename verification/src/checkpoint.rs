//! Scan checkpoints: where a scan stood, for resuming or reporting.

use vstd::prelude::*;
use crate::resilience::BadSectorRecord;
use crate::text::owned;
use vstd::string::StringExecFns;

verus! {

/// Where a scan stood when it was saved.
pub struct ScanCheckpoint {
    pub session_id: String,
    pub source_fingerprint: String,
    pub source_size: u64,
    pub filesystem: String,
    pub scan_mode: String,
    pub current_offset: u64,
    pub completed_ranges: Vec<(u64, u64)>,
    pub filesystem_state: String,
    pub mft_position: Option<u64>,
    pub directory_position: Option<u64>,
    pub carver_state_json: String,
    pub candidate_count: u64,
    pub bad_ranges: Vec<(u64, u64)>,
    pub signature_package_version: String,
    pub engine_version: String,
    pub updated_at: String,
}

/// The `[start, end)` byte range of a bad-sector record.
pub open spec fn bad_range(r: BadSectorRecord) -> (u64, u64) {
    (r.offset, r.offset.saturating_add(r.length as u64))
}

/// The checkpoint a finished scan of `device_id` leaves: session
/// `scan-{device_id}`, the filesystem and mode it ran with, its offset at
/// the end of the device, the number of candidates, and the byte range of
/// every bad sector; everything else empty.
pub fn scan_checkpoint(
    device_id: &str,
    filesystem: &str,
    mode: &str,
    current_offset: u64,
    candidate_count: usize,
    bad_sectors: &[BadSectorRecord],
    updated_at: &str,
) -> (r: ScanCheckpoint)
    ensures
        r.session_id@ == "scan-"@ + device_id@,
        r.source_fingerprint@.len() == 0,
        r.source_size == 0,
        r.filesystem@ == filesystem@,
        r.scan_mode@ == mode@,
        r.current_offset == current_offset,
        r.completed_ranges@.len() == 0,
        r.filesystem_state@.len() == 0,
        r.mft_position is None,
        r.directory_position is None,
        r.carver_state_json@.len() == 0,
        r.candidate_count == candidate_count as u64,
        r.bad_ranges@ == bad_sectors@.map_values(|b: BadSectorRecord| bad_range(b)),
        r.signature_package_version@.len() == 0,
        r.engine_version@.len() == 0,
        r.updated_at@ == updated_at@,
{
    let mut session_id = owned("scan-");
    session_id.append(device_id);
    let mut bad_ranges: Vec<(u64, u64)> = Vec::new();
    let mut k: usize = 0;
    while k < bad_sectors.len()
        invariant
            k <= bad_sectors@.len(),
            bad_ranges@ == bad_sectors@.subrange(0, k as int).map_values(|b: BadSectorRecord| bad_range(b)),
        decreases bad_sectors@.len() - k,
    {
        let b = &bad_sectors[k];
        bad_ranges.push((b.offset, b.offset.saturating_add(b.length as u64)));
        k = k + 1;
        assert(bad_ranges@ =~= bad_sectors@.subrange(0, k as int).map_values(|b: BadSectorRecord| bad_range(b)));
    }
    assert(bad_sectors@.subrange(0, k as int) =~= bad_sectors@);
    ScanCheckpoint {
        session_id,
        source_fingerprint: String::new(),
        source_size: 0,
        filesystem: owned(filesystem),
        scan_mode: owned(mode),
        current_offset,
        completed_ranges: Vec::new(),
        filesystem_state: String::new(),
        mft_position: None,
        directory_position: None,
        carver_state_json: String::new(),
        candidate_count: candidate_count as u64,
        bad_ranges,
        signature_package_version: String::new(),
        engine_version: String::new(),
        updated_at: owned(updated_at),
    }
}

} // verus!
