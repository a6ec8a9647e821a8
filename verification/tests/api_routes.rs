use revenant_core::api::{
    control_body, destination_missing, failed_outcome, missing_bytes_outcome, outcome_tally, parse_request_head, record_byte_source,
    required_bytes, route_for, scan_job_id, scan_request_error, select_candidates, unauthorized_reply, write_verified, written_outcome, written_outcome_of, ByteSource, RouteKind,
};
use revenant_core::server::{unique_record_count, RecoveredFileRecord};

fn record(id: &str, size: usize) -> RecoveredFileRecord {
    RecoveredFileRecord {
        id: id.to_string(),
        name: format!("{id}.jpg"),
        file_type: "image".to_string(),
        size_bytes: size,
        score: 90,
        label: "Recoverable".to_string(),
        complete: true,
        source: "carving".to_string(),
        sha256: String::new(),
        structurally_valid: true,
        verification_state: "Verified".to_string(),
        reconstruction_state: "COMPLETE".to_string(),
        duplicate_of: None,
        source_device_id: "dev".to_string(),
        data_runs: Vec::new(),
        resident_data: None,
    }
}

#[test]
fn route_refuses_unauthorized_post_and_delete_first() {
    assert_eq!(route_for("POST", "/scans", false).kind, RouteKind::Unauthorized);
    assert_eq!(route_for("DELETE", "/anything", false).kind, RouteKind::Unauthorized);
    assert_eq!(route_for("POST", "/scans", true).kind, RouteKind::StartScan);
    assert_eq!(route_for("POST", "/scan", true).kind, RouteKind::StartScan);
    assert_eq!(route_for("GET", "/devices", false).kind, RouteKind::ListDevices);
    assert_eq!(route_for("OPTIONS", "/whatever", false).kind, RouteKind::Preflight);
    assert_eq!(route_for("DELETE", "/devices", true).kind, RouteKind::NotFound);
}

#[test]
fn route_extracts_ids() {
    let r = route_for("GET", "/scans/scan-abc-1", false);
    assert_eq!(r.kind, RouteKind::GetScanJob);
    assert_eq!(r.id, "scan-abc-1");
    let r = route_for("POST", "/scans/job7/pause", true);
    assert_eq!(r.kind, RouteKind::PauseScan);
    assert_eq!(r.id, "job7");
    let r = route_for("POST", "/scans/job7/cancel", true);
    assert_eq!(r.kind, RouteKind::CancelScan);
    assert_eq!(r.id, "job7");
    let r = route_for("GET", "/scan/sess1/results", false);
    assert_eq!(r.kind, RouteKind::ScanResults);
    assert_eq!(r.id, "sess1");
    let r = route_for("GET", "/candidates/c-9/preview", false);
    assert_eq!(r.kind, RouteKind::CandidatePreview);
    assert_eq!(r.id, "c-9");
    let r = route_for("GET", "/recoveries/r1/progress", false);
    assert_eq!(r.kind, RouteKind::RecoveryProgress);
    assert_eq!(r.id, "r1");
    let r = route_for("GET", "/recoveries/r1", false);
    assert_eq!(r.kind, RouteKind::GetRecovery);
    assert_eq!(r.id, "r1");
    let r = route_for("GET", "/sessions/s2", false);
    assert_eq!(r.kind, RouteKind::GetSession);
    assert_eq!(r.id, "s2");
    assert_eq!(route_for("GET", "/sessions", false).kind, RouteKind::ListSessions);
    // A GET on a pause path is a job lookup with the rest as its id.
    let r = route_for("GET", "/scans/job7/pause", false);
    assert_eq!(r.kind, RouteKind::GetScanJob);
    assert_eq!(r.id, "job7/pause");
    // Repeated prefixes and suffixes are all trimmed.
    let r = route_for("POST", "/recoveries//recoveries/x/resume/resume", true);
    assert_eq!(r.kind, RouteKind::ResumeRecovery);
    assert_eq!(r.id, "x");
    assert_eq!(route_for("GET", "/nowhere", false).kind, RouteKind::NotFound);
}

#[test]
fn scan_requests_are_validated() {
    assert_eq!(scan_request_error("", "quick"), Some("device_id is required".to_string()));
    assert_eq!(scan_request_error("d1", "fast"), Some("mode must be quick or deep".to_string()));
    assert_eq!(scan_request_error("d1", "quick"), None);
    assert_eq!(scan_request_error("d1", "deep"), None);
}

#[test]
fn candidates_are_selected_by_id_in_record_order() {
    let recs = vec![record("a", 10), record("b", 20), record("c", 30)];
    assert_eq!(select_candidates(&recs, &[]), vec![0, 1, 2]);
    let wanted = vec!["c".to_string(), "a".to_string(), "zzz".to_string()];
    assert_eq!(select_candidates(&recs, &wanted), vec![0, 2]);
}

#[test]
fn required_bytes_sums_and_saturates() {
    assert_eq!(required_bytes(&[record("a", 10), record("b", 20)]), 30);
    assert_eq!(required_bytes(&[]), 0);
    assert_eq!(required_bytes(&[record("a", usize::MAX), record("b", usize::MAX)]), u64::MAX);
}

#[test]
fn recovered_file_verification_and_job_ids() {
    assert!(write_verified(false, "ab", "ab"));
    assert!(!write_verified(true, "ab", "ab"));
    assert!(!write_verified(false, "ab", "ac"));
    assert_eq!(scan_job_id("dev1", "1700"), "scan-dev1-1700");
}

#[test]
fn request_head_is_read() {
    let h = parse_request_head("POST /scans HTTP/1.1\r\nHost: x\r\nContent-Length: 42\r\nAUTHORIZATION:  Bearer abc \r\n\r\n");
    assert_eq!(h.method, "POST");
    assert_eq!(h.path, "/scans");
    assert_eq!(h.content_length, 42);
    assert_eq!(h.authorization, "Bearer abc");
    let h = parse_request_head("GET\r\ncontent-length: lots\r\n\r\n");
    assert_eq!(h.method, "GET");
    assert_eq!(h.path, "");
    assert_eq!(h.content_length, usize::MAX);
    assert_eq!(h.authorization, "");
    let h = parse_request_head("");
    assert_eq!(h.method, "");
    assert_eq!(h.content_length, 0);
    let h = parse_request_head("GET / HTTP/1.1\r\nContent-Length: 5\r\nContent-Length: +7\r\n\r\n");
    assert_eq!(h.content_length, 7);
}

#[test]
fn control_requests_are_answered_with_the_new_status() {
    assert_eq!(control_body(RouteKind::PauseScan, "scan-1"), Some("{\"job_id\":\"scan-1\",\"status\":\"PAUSED\"}".to_string()));
    assert_eq!(
        control_body(RouteKind::CancelRecovery, "r\"1"),
        Some("{\"recovery_id\":\"r\\\"1\",\"status\":\"CANCELLING\"}".to_string())
    );
    assert_eq!(control_body(RouteKind::ResumeRecovery, "r2"), Some("{\"recovery_id\":\"r2\",\"status\":\"RUNNING\"}".to_string()));
    assert_eq!(control_body(RouteKind::ListDevices, "x"), None);
}

#[test]
fn failed_outcome_keeps_the_candidate_and_the_reason() {
    let mut r = record("c1", 10);
    r.sha256 = "ab".to_string();
    let o = failed_outcome(&r, "disk full".to_string());
    assert_eq!(o.candidate_id, "c1");
    assert_eq!(o.requested_name, "c1.jpg");
    assert_eq!(o.written_name, "");
    assert_eq!(o.bytes_written, 0);
    assert_eq!(o.sha256_before_write, "ab");
    assert_eq!(o.sha256_after_write, "");
    assert!(!o.post_write_verified);
    assert_eq!(o.status, "FAILED");
    assert_eq!(o.error.as_deref(), Some("disk full"));
}

#[test]
fn written_outcome_is_recovered_only_when_the_hash_matches() {
    let mut r = record("c2", 4);
    r.sha256 = "feed".to_string();
    let ok = written_outcome(&r, "c2_1.jpg".to_string(), 4, "feed".to_string(), None);
    assert!(ok.post_write_verified);
    assert_eq!(ok.status, "RECOVERED");
    assert_eq!(ok.error, None);
    assert_eq!(ok.written_name, "c2_1.jpg");
    assert_eq!(ok.bytes_written, 4);
    assert_eq!(ok.sha256_after_write, "feed");

    let mismatch = written_outcome(&r, "c2.jpg".to_string(), 4, "beef".to_string(), None);
    assert!(!mismatch.post_write_verified);
    assert_eq!(mismatch.status, "FAILED");
    assert_eq!(mismatch.error.as_deref(), Some("post-write hash mismatch"));

    let io = written_outcome(&r, "c2.jpg".to_string(), 2, "feed".to_string(), Some("broken pipe".to_string()));
    assert!(!io.post_write_verified);
    assert_eq!(io.error.as_deref(), Some("broken pipe"));
}

#[test]
fn outcome_tally_counts_verified_and_failed() {
    let mut r = record("c3", 1);
    r.sha256 = "00".to_string();
    let outcomes = vec![
        written_outcome(&r, "a".to_string(), 1, "00".to_string(), None),
        failed_outcome(&r, "x".to_string()),
        written_outcome(&r, "b".to_string(), 1, "00".to_string(), None),
        written_outcome(&r, "c".to_string(), 1, "11".to_string(), None),
    ];
    assert_eq!(outcome_tally(&outcomes), (2, 2));
    assert_eq!(outcome_tally(&[]), (0, 0));
}

#[test]
fn a_blank_destination_is_missing() {
    assert!(destination_missing(""));
    assert!(destination_missing(" \t\n"));
    assert!(!destination_missing(" /mnt/out "));
}

#[test]
fn nothing_written_is_never_recovered() {
    let mut r = record("c4", 0);
    r.sha256 = "e3b0".to_string();
    let o = written_outcome(&r, "c4.jpg".to_string(), 0, "e3b0".to_string(), None);
    assert!(!o.post_write_verified);
    assert_eq!(o.status, "FAILED");
    assert_eq!(o.error.as_deref(), Some("no recovered bytes available"));
    let failed = missing_bytes_outcome(&r, 0).expect("no bytes gives an outcome");
    assert_eq!(failed.status, "FAILED");
    assert_eq!(failed.bytes_written, 0);
    assert_eq!(failed.error.as_deref(), Some("no recovered bytes available"));
    assert!(missing_bytes_outcome(&r, 3).is_none());
}

#[test]
fn record_bytes_come_from_resident_data_then_runs() {
    let mut r = record("c5", 6);
    r.resident_data = Some(vec![1, 2, 3, 4, 5, 6]);
    match record_byte_source(&r, 4) {
        ByteSource::Resident(b) => assert_eq!(b, vec![1, 2, 3, 4]),
        _ => panic!("resident bytes expected"),
    }
    match record_byte_source(&r, usize::MAX) {
        ByteSource::Resident(b) => assert_eq!(b, vec![1, 2, 3, 4, 5, 6]),
        _ => panic!("resident bytes expected"),
    }
    r.resident_data = None;
    r.data_runs = vec![(4096, 6)];
    r.source_device_id = "dev-1".to_string();
    assert!(matches!(record_byte_source(&r, 6), ByteSource::Runs));
    r.source_device_id = String::new();
    assert!(matches!(record_byte_source(&r, 6), ByteSource::Unavailable));
    r.source_device_id = "dev-1".to_string();
    r.data_runs = Vec::new();
    assert!(matches!(record_byte_source(&r, 6), ByteSource::Unavailable));
}

#[test]
fn written_outcome_of_hashes_the_written_bytes() {
    let mut r = record("c7", 3);
    r.sha256 = "ba7816bf8f01cfea414140de5dae2223b00361a396177a9cb410ff61f20015ad".to_string();
    let ok = written_outcome_of(&r, "c7.jpg".to_string(), b"abc", None);
    assert_eq!(ok.status, "RECOVERED");
    assert!(ok.post_write_verified);
    assert_eq!(ok.bytes_written, 3);
    assert_eq!(ok.sha256_after_write, r.sha256);
    assert_eq!(ok.written_name, "c7.jpg");
    assert_eq!(ok.error, None);

    let changed = written_outcome_of(&r, "c7.jpg".to_string(), b"abd", None);
    assert_eq!(changed.status, "FAILED");
    assert!(!changed.post_write_verified);
    assert_ne!(changed.sha256_after_write, r.sha256);
    assert_eq!(changed.error.as_deref(), Some("post-write hash mismatch"));

    let short = written_outcome_of(&r, "c7.jpg".to_string(), b"ab", Some("disk full".to_string()));
    assert_eq!(short.status, "FAILED");
    assert_eq!(short.bytes_written, 2);
    assert_eq!(short.error.as_deref(), Some("disk full"));

    let empty = written_outcome_of(&r, "c7.jpg".to_string(), b"", None);
    assert_eq!(empty.status, "FAILED");
    assert_eq!(empty.sha256_after_write, "e3b0c44298fc1c149afbf4c8996fb92427ae41e4649b934ca495991b7852b855");
    assert_eq!(empty.error.as_deref(), Some("no recovered bytes available"));
}

#[test]
fn unauthorized_reply_is_a_401_with_the_error_body() {
    let (status, body) = unauthorized_reply();
    assert_eq!(status, "401 Unauthorized");
    assert_eq!(body, "{\"error\":\"invalid or missing auth token\"}");
}

#[test]
fn files_recovered_counts_records_that_are_not_duplicates() {
    let a = record("s-0", 10);
    let mut b = record("s-1", 10);
    b.duplicate_of = Some("s-0".to_string());
    let c = record("s-2", 10);
    let mut b2 = record("s-3", 10);
    b2.duplicate_of = Some("s-0".to_string());
    assert_eq!(unique_record_count(&[a, b, c]), 2);
    assert_eq!(unique_record_count(&[b2]), 0);
    assert_eq!(unique_record_count(&[]), 0);
}
