//! Evidence manifests: a record of a recovery session sealed by a hash of
//! its own fields.

use vstd::prelude::*;
use crate::digest::{hex_lower, sha256, sha256_hex};
use crate::text::{decimal, owned, u64_to_decimal};
use vstd::string::{StringExecFns, StringSliceAdditionalSpecFns};
use vstd::utf8::encode_utf8;

verus! {

/// The technical summary of a scan: source, filesystem and mode, error
/// and bad-sector counts, reconstruction statistics, and each recovered
/// file's verification state as (file name, state).
pub struct TechnicalReport {
    pub source_device: String,
    pub filesystem: String,
    pub scan_mode: String,
    pub sectors_scanned_note: String,
    pub errors: usize,
    pub bad_sectors: usize,
    pub reconstruction_stats: String,
    pub validation_results: Vec<(String, String)>,
}

/// The record of a recovery session. `manifest_hash` is the hash of every
/// other field, so any later edit shows.
pub struct EvidenceManifest {
    pub session_id: String,
    pub source_device_hash: String,
    pub source_capacity: u64,
    pub filesystem: String,
    pub scan_started: String,
    pub scan_completed: String,
    pub operator: String,
    pub files_discovered: usize,
    pub files_recovered: usize,
    pub files_failed: usize,
    pub software_version: String,
    pub engine_version: String,
    pub manifest_version: u32,
    pub manifest_hash: String,
}

/// The JSON text `serde_json` writes for the manifest's fields, in order,
/// as one array.
pub uninterp spec fn manifest_fields_json(
    session_id: Seq<char>,
    source_device_hash: Seq<char>,
    source_capacity: u64,
    filesystem: Seq<char>,
    scan_started: Seq<char>,
    scan_completed: Seq<char>,
    operator: Seq<char>,
    files_discovered: usize,
    files_recovered: usize,
    files_failed: usize,
    software_version: Seq<char>,
    engine_version: Seq<char>,
    manifest_version: u32,
) -> Seq<char>;

/// The JSON of a manifest's fields other than its hash.
pub open spec fn fields_json(m: EvidenceManifest) -> Seq<char> {
    manifest_fields_json(
        m.session_id@,
        m.source_device_hash@,
        m.source_capacity,
        m.filesystem@,
        m.scan_started@,
        m.scan_completed@,
        m.operator@,
        m.files_discovered,
        m.files_recovered,
        m.files_failed,
        m.software_version@,
        m.engine_version@,
        m.manifest_version,
    )
}

/// Calls `serde_json::to_string` on the tuple of the manifest's fields
/// (all but the hash). Trusted: the text is the crate's serialisation of
/// exactly these values; strings and integers always serialise, so the
/// empty fallback is never taken.
#[verifier::external_body]
fn serialize_fields(m: &EvidenceManifest) -> (r: String)
    ensures
        r@ == manifest_fields_json(
            m.session_id@,
            m.source_device_hash@,
            m.source_capacity,
            m.filesystem@,
            m.scan_started@,
            m.scan_completed@,
            m.operator@,
            m.files_discovered,
            m.files_recovered,
            m.files_failed,
            m.software_version@,
            m.engine_version@,
            m.manifest_version,
        ),
{
    serde_json::to_string(&(
        &m.session_id,
        &m.source_device_hash,
        m.source_capacity,
        &m.filesystem,
        &m.scan_started,
        &m.scan_completed,
        &m.operator,
        m.files_discovered,
        m.files_recovered,
        m.files_failed,
        &m.software_version,
        &m.engine_version,
        m.manifest_version,
    )).unwrap_or_default()
}

/// The manifest with its hash set to the hex SHA-256 of the UTF-8 bytes of
/// `fields` (the serialised other fields); everything else is kept.
pub fn seal_manifest(m: EvidenceManifest, fields: &str) -> (r: EvidenceManifest)
    ensures
        r.manifest_hash@ == hex_lower(sha256(encode_utf8(fields@))),
        r.session_id == m.session_id,
        r.source_device_hash == m.source_device_hash,
        r.source_capacity == m.source_capacity,
        r.filesystem == m.filesystem,
        r.scan_started == m.scan_started,
        r.scan_completed == m.scan_completed,
        r.operator == m.operator,
        r.files_discovered == m.files_discovered,
        r.files_recovered == m.files_recovered,
        r.files_failed == m.files_failed,
        r.software_version == m.software_version,
        r.engine_version == m.engine_version,
        r.manifest_version == m.manifest_version,
{
    let mut m = m;
    m.manifest_hash = sha256_hex(fields.as_bytes());
    m
}

/// The manifest of a session at time `now` (its start and completion):
/// the operator is `local-user`, failures are the discovered files not
/// recovered (never below zero), the version is 1, and the hash is that of
/// the JSON of the other fields.
pub fn generate_evidence_manifest(
    session_id: &str,
    source_device_hash: &str,
    source_capacity: u64,
    filesystem: &str,
    files_discovered: usize,
    files_recovered: usize,
    now: &str,
    software_version: &str,
    engine_version: &str,
) -> (r: EvidenceManifest)
    ensures
        r.session_id@ == session_id@,
        r.source_device_hash@ == source_device_hash@,
        r.source_capacity == source_capacity,
        r.filesystem@ == filesystem@,
        r.scan_started@ == now@,
        r.scan_completed@ == now@,
        r.operator@ == "local-user"@,
        r.files_discovered == files_discovered,
        r.files_recovered == files_recovered,
        r.files_failed == (if files_discovered > files_recovered { files_discovered - files_recovered } else { 0 }),
        r.software_version@ == software_version@,
        r.engine_version@ == engine_version@,
        r.manifest_version == 1,
        r.manifest_hash@ == hex_lower(sha256(encode_utf8(fields_json(r)))),
{
    let m = EvidenceManifest {
        session_id: owned(session_id),
        source_device_hash: owned(source_device_hash),
        source_capacity,
        filesystem: owned(filesystem),
        scan_started: owned(now),
        scan_completed: owned(now),
        operator: owned("local-user"),
        files_discovered,
        files_recovered,
        files_failed: files_discovered.saturating_sub(files_recovered),
        software_version: owned(software_version),
        engine_version: owned(engine_version),
        manifest_version: 1,
        manifest_hash: String::new(),
    };
    let json = serialize_fields(&m);
    let r = seal_manifest(m, json.as_str());
    assert(fields_json(r) == fields_json(m));
    r
}

/// Where a manifest version is saved: `{dir}/{session}_manifest_v{n}.json`.
pub fn manifest_path(dir: &str, m: &EvidenceManifest) -> (r: String)
    ensures
        r@ == dir@ + "/"@ + m.session_id@ + "_manifest_v"@ + decimal(m.manifest_version as nat) + ".json"@,
{
    let mut s = owned(dir);
    s.append("/");
    s.append(m.session_id.as_str());
    s.append("_manifest_v");
    let v = u64_to_decimal(m.manifest_version as u64);
    s.append(v.as_str());
    s.append(".json");
    s
}

} // verus!
