use revenant_core::auth::validate_bearer_token;
use revenant_core::carve::{find_subsequence, parser_known_end, CarvedFile};
use revenant_core::checkpoint::scan_checkpoint;
use revenant_core::dedup::{hash_and_group, CandidateResolver};
use revenant_core::destination::{choose_free_name, collision_name, destination_verdict, path_within, sanitize_filename, SourceConflict};
use revenant_core::device::{device_from_mount, parse_df_free, parse_df_source, parse_df_usage, parse_mounts};
use revenant_core::digest::sha256_hex;
use revenant_core::encryption::{classify_region, state_name, DataState};
use revenant_core::engine::{
    managed_image_device, physical_disk_device,
    build_device_analysis_report, classify_boot_sector, imaged_device, resolve_image_source, resolve_scan_source,
    DetectedFilesystem, DeviceAnalysis, DeviceRegistry, RegisteredDevice, ScanError,
};
use revenant_core::fragment::{assess, state_upper, FragmentReconstructor, ReconstructionState};
use revenant_core::jobs::{is_cancelled, pause, request_cancel, resume, status_upper, JobStatus};
use revenant_core::performance::{adapt, meminfo_totals, parse_kb, SystemProfile};
use revenant_core::platform::{linux_raw_device, parse_lsblk_disks, RawDeviceInfo};
use revenant_core::preview::{inspect, jpeg_dim};
use revenant_core::provider::RecoveredItem;
use revenant_core::reporting::{generate_evidence_manifest, manifest_path, seal_manifest};
use revenant_core::bytes::{
    eq_at, eq_bytes, matches_at, pow256_u64, read_be16, read_be32, read_be64, read_le16, read_le32, read_le64, read_le_n,
    saturating_mul, starts_with,
};
use revenant_core::resilience::BadSectorRecord;
use revenant_core::scoring::{confidence_level, label};
use revenant_core::server::{build_records, esc, guess_ext, now_iso_public};
use revenant_core::signatures::{hex_text_valid, hex_to_bytes};
use revenant_core::text::{parse_u64_chars, u64_to_decimal, u64_to_padded};
use revenant_core::trim::trim_status_from;
use revenant_core::verify::{crc32, verify, verify_bytes_by_ext};
use revenant_core::workers::{JobQueue, Priority};
use sha2::Digest;

fn dev(id: &str, path: Option<&str>, capable: bool, reason: Option<&str>) -> RegisteredDevice {
    RegisteredDevice {
        id: id.to_string(),
        name: format!("{id} name"),
        category: "test-fixture".to_string(),
        backing_path: path.map(|p| p.to_string()),
        scan_capable: capable,
        unavailable_reason: reason.map(|r| r.to_string()),
    }
}

fn carved(offset: usize, size: usize, ext: &str, complete: bool, max_size: usize) -> CarvedFile {
    CarvedFile {
        offset,
        size,
        file_type: "image".to_string(),
        ext: ext.to_string(),
        complete,
        max_size,
        coverage_cap_percent: 95,
    }
}

#[test]
fn crc32_of_check_string() {
    assert_eq!(crc32(b"123456789"), 0xCBF43926);
    assert_eq!(crc32(b""), 0);
}

#[test]
fn sha256_hex_of_abc() {
    assert_eq!(sha256_hex(b"abc"), "ba7816bf8f01cfea414140de5dae2223b00361a396177a9cb410ff61f20015ad");
}

#[test]
fn hex_decoding() {
    assert_eq!(hex_to_bytes("FFD8ff"), vec![0xFF, 0xD8, 0xFF]);
    assert_eq!(hex_to_bytes("zz41"), vec![0x41]);
    assert!(hex_text_valid("0A0b"));
    assert!(!hex_text_valid("ABC"));
}

#[test]
fn parser_end_detection() {
    let mut png = vec![0x89, 0x50, 0x4E, 0x47, 0x0D, 0x0A, 0x1A, 0x0A];
    png.extend_from_slice(&[0, 0, 0, 0, b'I', b'E', b'N', b'D', 0xAE, 0x42, 0x60, 0x82]);
    assert_eq!(parser_known_end("png", &png), Some(20));
    let riff = [b'R', b'I', b'F', b'F', 100, 0, 0, 0];
    assert_eq!(parser_known_end("riff", &riff), Some(108));
    let bmff = [0, 0, 0, 0x18, b'f', b't', b'y', b'p'];
    assert_eq!(parser_known_end("iso-bmff", &bmff), Some(24));
    assert_eq!(parser_known_end("jpeg", &[0xFF, 0xD8, 0x00, 0xFF, 0xD9]), Some(5));
    assert_eq!(parser_known_end("pdf", b"%PDF-1.4 %%EOF"), Some(14));
    let mut zip = vec![0u8; 4];
    zip.extend_from_slice(&[0x50, 0x4B, 0x05, 0x06]);
    zip.extend_from_slice(&[0u8; 18]);
    assert_eq!(parser_known_end("zip", &zip), Some(26));
    assert_eq!(parser_known_end("gif", &zip), None);
    assert_eq!(find_subsequence(b"abcabc", b"ca"), Some(2));
    assert_eq!(find_subsequence(b"abc", b""), None);
}

#[test]
fn fragment_assessment_states() {
    let a = assess(1000, 1000, true, 1, true, true);
    assert_eq!(a.state, ReconstructionState::ContiguousVerified);
    assert_eq!(a.missing_ranges, 0);
    assert_eq!(assess(1000, 1000, true, 3, true, true).state, ReconstructionState::FragmentedReconstructed);
    assert_eq!(assess(1000, 1000, true, 0, true, true).state, ReconstructionState::ChainVerified);
    assert_eq!(assess(1000, 998, true, 1, true, true).state, ReconstructionState::Partial);
    assert_eq!(assess(1000, 500, false, 1, true, true).state, ReconstructionState::Partial);
    assert_eq!(assess(1000, 499, false, 1, true, true).state, ReconstructionState::Corrupted);
    assert_eq!(assess(1000, 0, false, 0, false, true).state, ReconstructionState::Unreadable);
    let u = assess(10, 10, true, 0, true, false);
    assert_eq!(u.state, ReconstructionState::Unsupported);
    assert_eq!(u.missing_ranges, 1);
    assert_eq!(state_upper(ReconstructionState::ChainVerified), "CHAINVERIFIED");
    let r = FragmentReconstructor::new("mft");
    assert!(r.validate_format("NTFS"));
    assert!(r.validate_format("hfs+"));
    assert!(!r.validate_format("ext3"));
}

#[test]
fn region_classification() {
    let mut luks = vec![0x4C, 0x55, 0x4B, 0x53, 0xBA, 0xBE];
    luks.extend_from_slice(&[0u8; 10]);
    assert_eq!(classify_region(&luks, false), DataState::Encrypted);
    let mut bitlocker = vec![0u8; 512];
    bitlocker[3..11].copy_from_slice(b"-FVE-FS-");
    assert_eq!(classify_region(&bitlocker, false), DataState::Encrypted);
    let zip = [0x50, 0x4B, 0x03, 0x04, 0, 0, 1, 0];
    assert_eq!(classify_region(&zip, false), DataState::PasswordProtected);
    assert_eq!(classify_region(b"%PDF-1.7 /Encrypt 3 0 R", false), DataState::PasswordProtected);
    assert_eq!(classify_region(&vec![0u8; 4096], true), DataState::Unsupported);
    assert_eq!(classify_region(&vec![0u8; 4095], true), DataState::Recoverable);
    assert_eq!(state_name(DataState::PasswordProtected), "PasswordProtected");
}

#[test]
fn filename_sanitising_and_collisions() {
    assert_eq!(sanitize_filename("../../etc/passwd"), "passwd");
    assert_eq!(sanitize_filename("C:\\dir\\a<b>.txt"), "a_b_.txt");
    assert_eq!(sanitize_filename("  ..hidden.. "), "hidden");
    assert_eq!(sanitize_filename("dir/"), "recovered_file");
    assert_eq!(collision_name("photo.jpg", 3), "photo_3.jpg");
    assert_eq!(collision_name("README", 12), "README_12");
    assert_eq!(choose_free_name("a.txt", &[]), Some("a.txt".to_string()));
    let taken = vec!["a.txt".to_string(), "a_1.txt".to_string(), "a_3.txt".to_string()];
    assert_eq!(choose_free_name("a.txt", &taken), Some("a_2.txt".to_string()));
    assert_eq!(choose_free_name("b.txt", &taken), Some("b.txt".to_string()));
    let mut all: Vec<String> = (1..10000).map(|i| format!("c_{i}")).collect();
    all.push("c".to_string());
    assert_eq!(choose_free_name("c", &all), Some("c_dup".to_string()));
    all.push("c_dup".to_string());
    assert_eq!(choose_free_name("c", &all), None);
}

#[test]
fn destination_verdict_reports_every_issue() {
    let sources = vec![SourceConflict {
        device_id: "raw-sda".to_string(),
        backing_path: "/dev/sda".to_string(),
        same_filesystem: true,
        same_physical_device: true,
    }];
    let v = destination_verdict(true, &sources, false, 10, 20);
    assert!(!v.safe && !v.different_from_source && !v.sufficient_space && !v.writable);
    assert_eq!(v.issues.len(), 4);
    assert_eq!(v.issues[0], "Destination is on the same filesystem/device as registered source 'raw-sda' (/dev/sda)");
    assert_eq!(v.issues[3], "Insufficient free space: 10 bytes available, 20 bytes required");
    let ok = destination_verdict(true, &vec![], true, 21, 20);
    assert!(ok.safe && ok.issues.is_empty());
    let unresolved = destination_verdict(false, &sources, true, 21, 20);
    assert!(unresolved.different_from_source);
    assert_eq!(unresolved.issues, vec!["Destination path could not be resolved".to_string()]);
}

#[test]
fn registry_register_get_and_errors() {
    let mut reg = DeviceRegistry::new();
    reg.register(dev("a", Some("/img/a.img"), true, None));
    reg.register(dev("b", None, false, Some("locked")));
    reg.register(dev("c", None, true, None));
    assert_eq!(reg.get("a").unwrap().backing_path.as_deref(), Some("/img/a.img"));
    reg.register(dev("a", Some("/img/a2.img"), true, None));
    assert_eq!(reg.get("a").unwrap().backing_path.as_deref(), Some("/img/a2.img"));
    assert_eq!(reg.list().len(), 3);
    assert!(reg.get("zzz").is_none());
    assert_eq!(resolve_scan_source(&reg, "a").ok().as_deref(), Some("/img/a2.img"));
    assert!(matches!(resolve_scan_source(&reg, "zzz"), Err(ScanError::DeviceNotFound)));
    match resolve_scan_source(&reg, "b") {
        Err(ScanError::DeviceNotScanCapable(m)) => assert_eq!(m, "locked"),
        _ => panic!("expected not scan-capable"),
    }
    match resolve_scan_source(&reg, "c") {
        Err(ScanError::DeviceNotScanCapable(m)) => assert_eq!(m, "no backing path registered"),
        _ => panic!("expected missing backing path"),
    }
    match resolve_image_source(&reg, "c") {
        Err(ScanError::DeviceNotScanCapable(m)) => assert_eq!(m, "source has no accessible backing path to image"),
        _ => panic!("expected no backing path"),
    }
    let (src, path) = resolve_image_source(&reg, "a").ok().unwrap();
    let imaged = imaged_device(&src, "imaged-a-1".to_string(), "/imgs/imaged-a-1.img".to_string());
    assert_eq!(path, "/img/a2.img");
    assert_eq!(imaged.name, "Imaged copy of a name");
    assert!(imaged.scan_capable);
}

#[test]
fn boot_sector_classification_and_report() {
    let mut ntfs = vec![0u8; 512];
    ntfs[3..11].copy_from_slice(b"NTFS    ");
    assert_eq!(classify_boot_sector(&ntfs), DetectedFilesystem::Ntfs);
    let mut fat = vec![0u8; 512];
    fat[82..90].copy_from_slice(b"FAT32   ");
    assert_eq!(classify_boot_sector(&fat), DetectedFilesystem::Fat32);
    let a = DeviceAnalysis { trim_status: None, encryption_status: "Encrypted".to_string(), bad_sector_count: 2 };
    let r = build_device_analysis_report(&a, "NTFS");
    assert_eq!(r.filesystem, "NTFS");
    assert_eq!(r.sector_size, 512);
    assert_eq!(r.encryption, revenant_core::device::StatusLevel::Confirmed);
    assert_eq!(r.bad_sectors, revenant_core::device::StatusLevel::Confirmed);
    assert_eq!(r.trim, revenant_core::device::StatusLevel::Unknown);
}

#[test]
fn bearer_token_validation() {
    assert!(validate_bearer_token("Bearer abc123 ", "abc123"));
    assert!(!validate_bearer_token("bearer abc123", "abc123"));
    assert!(!validate_bearer_token("Bearer abc1234", "abc123"));
    assert!(!validate_bearer_token("", "abc123"));
}

#[test]
fn labels() {
    assert_eq!(label(100), "Perfect Recovery");
    assert_eq!(label(95), "Perfect Recovery");
    assert_eq!(label(80), "Likely Recoverable");
    assert_eq!(label(50), "Partial Recovery");
    assert_eq!(label(49), "Try Advanced Mode");
    assert_eq!(label(200), "Try Advanced Mode");
    assert_eq!(confidence_level(0), "UNRECOVERABLE");
    assert_eq!(confidence_level(60), "MEDIUM");
}

#[test]
fn adaptive_parameters() {
    let p = SystemProfile { cpu_cores: 9, total_ram_mb: 16000, available_ram_mb: 8192, gpu_detected: false, thermal_data_available: false };
    let a = adapt(&p, "maximum_recovery");
    assert_eq!((a.worker_count, a.read_block_size_kb, a.queue_depth, a.mode), (16, 512, 32, "maximum_recovery"));
    let b = adapt(&p, "battery_saver");
    assert_eq!(b.worker_count, 2);
    let c = adapt(&p, "whatever");
    assert_eq!((c.worker_count, c.mode), (8, "balanced"));
    let low = SystemProfile { cpu_cores: 1, total_ram_mb: 64, available_ram_mb: 10, gpu_detected: false, thermal_data_available: false };
    assert_eq!(adapt(&low, "performance").worker_count, 1);
}

#[test]
fn meminfo_parsing() {
    let kb: Vec<char> = "   8021312 kB".chars().collect();
    assert_eq!(parse_kb(&kb), 8021312);
    let bad: Vec<char> = "n/a".chars().collect();
    assert_eq!(parse_kb(&bad), 0);
    let text = "MemTotal:       16384000 kB\nMemFree:  1 kB\nMemAvailable:    8192000 kB\n";
    assert_eq!(meminfo_totals(text), (16000, 8000));
}

#[test]
fn job_transitions() {
    assert_eq!(pause(JobStatus::Running, false), (JobStatus::Paused, true));
    assert_eq!(pause(JobStatus::Queued, false), (JobStatus::Queued, false));
    assert_eq!(resume(JobStatus::Paused), (JobStatus::Running, false));
    assert_eq!(resume(JobStatus::Completed), (JobStatus::Completed, false));
    assert_eq!(request_cancel(JobStatus::Running), JobStatus::Cancelling);
    assert!(is_cancelled(Some(JobStatus::Cancelled)));
    assert!(!is_cancelled(Some(JobStatus::Failed)));
    assert_eq!(status_upper(JobStatus::Cancelling), "CANCELLING");
}

#[test]
fn queue_runs_by_priority_then_fifo() {
    let mut q = JobQueue::new();
    assert!(q.can_submit());
    let s1 = q.submit(Priority::Scanning);
    let s2 = q.submit(Priority::Validation);
    let s3 = q.submit(Priority::PreviewRequest);
    let s4 = q.submit(Priority::Validation);
    assert_eq!(q.queue_depth(), 4);
    assert_eq!(q.pop(), Some((Priority::PreviewRequest, s3)));
    assert_eq!(q.pop(), Some((Priority::Validation, s2)));
    assert_eq!(q.pop(), Some((Priority::Validation, s4)));
    assert_eq!(q.pop(), Some((Priority::Scanning, s1)));
    assert_eq!(q.pop(), None);
}

#[test]
fn jpeg_and_png_previews() {
    let mut jpeg = vec![0xFF, 0xD8, 0xFF, 0xE0, 0x00, 0x04, 0x00, 0x00];
    jpeg.extend_from_slice(&[0xFF, 0xC0, 0x00, 0x11, 0x08, 0x01, 0xE0, 0x02, 0x80, 0x03]);
    jpeg.extend_from_slice(&[0u8; 12]);
    assert_eq!(jpeg_dim(&jpeg), Some((640, 480)));
    let p = inspect("x.jpg", &jpeg);
    assert_eq!((p.kind.as_str(), p.mime.as_str(), p.width, p.height), ("image", "image/jpeg", Some(640), Some(480)));
    let mut png = vec![0x89, 0x50, 0x4E, 0x47, 0x0D, 0x0A, 0x1A, 0x0A, 0, 0, 0, 13, b'I', b'H', b'D', b'R'];
    png.extend_from_slice(&[0, 0, 1, 0, 0, 0, 0, 200]);
    let q = inspect("y", &png);
    assert_eq!((q.width, q.height), (Some(256), Some(200)));
    let t = inspect("notes.TXT", b"hello");
    assert_eq!((t.kind.as_str(), t.mime.as_str(), t.readable), ("document", "text/plain", true));
    let v = inspect("clip.mov", b"");
    assert_eq!((v.kind.as_str(), v.readable), ("video", false));
}

#[test]
fn structural_verification_by_extension() {
    let checks = verify_bytes_by_ext("png", &[0x89, 0x50, 0x4E, 0x47, 0x0D, 0x0A, 0x1A, 0x0A]).unwrap();
    assert!(!checks.is_empty());
    assert!(verify_bytes_by_ext("xyz", b"abc").is_none());
}

#[test]
fn records_mark_duplicates_and_verify() {
    let mut jpeg = vec![0xFF, 0xD8, 0xFF, 0xE0];
    jpeg.extend_from_slice(&[0u8; 20]);
    jpeg.extend_from_slice(&[0xFF, 0xD9]);
    let items = vec![
        RecoveredItem::Carved { file: carved(0, jpeg.len(), "jpg", true, 100), data: jpeg.clone() },
        RecoveredItem::Fat32Entry {
            name: "COPY.JPG".to_string(),
            size: jpeg.len() as u32,
            resident_data: Some(jpeg.clone()),
            data_runs: vec![],
            chain_verified: true,
            reconstruction_state: ReconstructionState::ContiguousVerified,
        },
        RecoveredItem::NtfsEntry {
            name: "big.bin".to_string(),
            size: 4096,
            is_directory: false,
            resident_data: None,
            data_runs: vec![(8192, 4096)],
            chain_verified: false,
            reconstruction_state: ReconstructionState::Partial,
        },
    ];
    let recs = build_records("s1", &items, &[90, 80, 40]);
    assert_eq!(recs.len(), 3);
    assert_eq!(recs[0].id, "s1-0");
    assert_eq!(recs[0].name, "recovered_0000.jpg");
    assert_eq!(recs[0].source, "raw_carving");
    assert_eq!(recs[0].label, "Likely Recoverable");
    assert_eq!(recs[0].sha256, sha256_hex(&jpeg));
    assert_eq!(recs[1].file_type, "jpg");
    assert_eq!(recs[1].duplicate_of.as_deref(), Some("s1-0"));
    assert!(recs[0].duplicate_of.is_none());
    assert_eq!(recs[1].reconstruction_state, "CONTIGUOUSVERIFIED");
    assert_eq!(recs[2].verification_state, "PENDING_VERIFICATION");
    assert_eq!(recs[2].sha256, "");
    assert_eq!(guess_ext("Archive.TAR.GZ"), "gz");
    assert_eq!(esc("a\"b\\c"), "a\\\"b\\\\c");
}

#[test]
fn hashing_groups_duplicates() {
    let buf = b"AAAABBBBAAAA".to_vec();
    let files = vec![carved(0, 4, "a", true, 4), carved(4, 4, "b", true, 4), carved(8, 10, "a", false, 4)];
    let groups = hash_and_group(&buf, &files);
    assert_eq!(groups.len(), 2);
    assert_eq!(groups[0].candidate_indices, vec![0, 2]);
    assert!(groups[0].is_duplicate_set);
    assert_eq!(groups[1].candidate_indices, vec![1]);
    assert!(!groups[1].is_duplicate_set);
    assert_eq!(groups[0].sha256, sha256_hex(b"AAAA"));
}

#[test]
fn resolver_prefers_complete_then_coverage_then_size() {
    let r = CandidateResolver::new();
    let out = r.resolve(&[
        carved(0, 100, "a", false, 1000),
        carved(50, 10, "b", true, 1000),
        carved(200, 50, "c", false, 100),
        carved(220, 60, "d", false, 100),
    ]);
    let got: Vec<(usize, String)> = out.iter().map(|c| (c.offset, c.ext.clone())).collect();
    assert_eq!(got, vec![(50, "b".to_string()), (220, "d".to_string())]);
    for w in out.windows(2) {
        assert!(w[0].offset + w[0].size <= w[1].offset);
    }
}

#[test]
fn evidence_manifest_is_sealed_by_its_fields() {
    let m = generate_evidence_manifest("sess", "abcd", 1024, "NTFS", 5, 3, "1700000000", "0.1.0", "0.1.0");
    assert_eq!(m.files_failed, 2);
    assert_eq!(m.operator, "local-user");
    let json = serde_json::to_string(&("sess", "abcd", 1024u64, "NTFS", "1700000000", "1700000000", "local-user", 5usize, 3usize, 2usize, "0.1.0", "0.1.0", 1u32)).unwrap();
    let expected = format!("{:x}", sha2::Sha256::digest(json.as_bytes()));
    assert_eq!(m.manifest_hash, expected);
    let other = generate_evidence_manifest("sess", "abcd", 1024, "NTFS", 5, 4, "1700000000", "0.1.0", "0.1.0");
    assert_ne!(other.manifest_hash, m.manifest_hash);
    assert_eq!(manifest_path("/r", &m), "/r/sess_manifest_v1.json");
}

#[test]
fn number_text_round_trip() {
    assert_eq!(u64_to_decimal(0), "0");
    assert_eq!(u64_to_decimal(18446744073709551615), "18446744073709551615");
    assert_eq!(u64_to_padded(7, 4), "0007");
    assert_eq!(u64_to_padded(12345, 4), "12345");
    let s: Vec<char> = u64_to_decimal(9876543210).chars().collect();
    assert_eq!(parse_u64_chars(&s), Some(9876543210));
    let plus: Vec<char> = "+42".chars().collect();
    assert_eq!(parse_u64_chars(&plus), Some(42));
    let over: Vec<char> = "18446744073709551616".chars().collect();
    assert_eq!(parse_u64_chars(&over), None);
    let neg: Vec<char> = "-1".chars().collect();
    assert_eq!(parse_u64_chars(&neg), None);
    let now = now_iso_public();
    assert!(!now.is_empty() && now.chars().all(|c| c.is_ascii_digit()));
}

#[test]
fn case_mapping_goes_through_unicode() {
    assert_eq!(guess_ext("Photo.JPG"), "jpg");
    assert_eq!(guess_ext("archive.ÄBC"), "äbc");
    let d = device_from_mount("/dev/sdb1", "/media/usb", "vfat", 1000, 12);
    assert_eq!(d.filesystem, "VFAT");
}

#[test]
fn system_listings() {
    let disks = parse_lsblk_disks("sda 500107862016 disk\nsda1 1000 part\nloop0 x disk\nnvme0n1 256060514304 disk\n");
    assert_eq!(disks, vec![("sda".to_string(), 500107862016), ("nvme0n1".to_string(), 256060514304)]);
    let d = linux_raw_device("sda", 10, Some("Permission denied".to_string()));
    assert_eq!(d.path, "/dev/sda");
    assert_eq!(d.name, "sda (/dev/sda)");
    assert!(!d.scan_capable);
    assert_eq!(d.reason.as_deref(), Some("read-only open failed: Permission denied"));
    let mounts = parse_mounts("/dev/sda1 / ext4 rw 0 0\nproc /proc proc rw 0 0\n/dev/loop3 /snap/core squashfs ro 0 0\n/dev/sdb1 /media/usb vfat rw 0 0\n");
    assert_eq!(mounts.len(), 2);
    assert_eq!(mounts[1].1, "/media/usb");
    let dev = device_from_mount("/dev/sdb1", "/media/usb", "vfat", 1000, 12);
    assert_eq!((dev.id.as_str(), dev.filesystem.as_str(), dev.category.as_str()), ("_dev_sdb1", "VFAT", "removable"));
    let df = "Filesystem 1B-blocks Used Available Use% Mounted on\n/dev/sda1 1000 400 600 40% /\n";
    assert_eq!(parse_df_usage(df), (1000, 40));
    assert_eq!(parse_df_free(df), 600);
    assert_eq!(parse_df_source(df).as_deref(), Some("/dev/sda1"));
    assert_eq!(parse_df_usage("header only"), (0, 0));
}

#[test]
fn trim_status_from_queue_attributes() {
    let ssd = trim_status_from("nvme0n1", "0\n", "512\n");
    assert_eq!(ssd.expected_recovery_potential, "Low");
    assert!(ssd.warning.unwrap().contains("granularity 512 bytes"));
    let virt = trim_status_from("vda", "1", "4096");
    assert_eq!(virt.expected_recovery_potential, "Moderate");
    let hdd = trim_status_from("sda", "1\n", "0\n");
    assert_eq!(hdd.expected_recovery_potential, "Normal");
    assert!(hdd.warning.is_none());
    assert!(!trim_status_from("x", "1", "junk").discard_supported);
}

#[test]
fn checkpoint_from_scan() {
    let bad = vec![BadSectorRecord { offset: 512, length: 512, attempts: 3, classification: "io_error_after_retry".to_string() }];
    let cp = scan_checkpoint("dev1", "FAT32", "deep", 16384, 7, &bad, "123");
    assert_eq!(cp.session_id, "scan-dev1");
    assert_eq!(cp.bad_ranges, vec![(512, 1024)]);
    assert_eq!(cp.candidate_count, 7);
}


#[test]
fn destination_on_a_source_device_is_never_safe() {
    let sources = vec![SourceConflict {
        device_id: "raw-sdb".to_string(),
        backing_path: "/dev/sdb".to_string(),
        same_filesystem: false,
        same_physical_device: true,
    }];
    let v = destination_verdict(true, &sources, true, 1000, 10);
    assert!(!v.safe);
    assert_eq!(v.issues, vec!["Destination is on the SAME PHYSICAL DEVICE as registered source 'raw-sdb' (/dev/sdb)".to_string()]);
    let unresolved = destination_verdict(false, &sources, true, 1000, 10);
    assert!(unresolved.safe);
    assert_eq!(unresolved.issues, vec!["Destination path could not be resolved".to_string()]);
}

#[test]
fn hex_written_by_the_digest_encoder_decodes_back() {
    let bytes: Vec<u8> = vec![0x00, 0x0f, 0x10, 0x7f, 0x80, 0xab, 0xff];
    let hex = revenant_core::digest::to_hex_lower(&bytes);
    assert_eq!(hex, "000f107f80abff");
    assert!(hex_text_valid(&hex));
    assert_eq!(hex_to_bytes(&hex), bytes);
}

#[test]
fn long_name_characters_skip_surrogates_and_padding() {
    let mut e = vec![0u8; 32];
    e[0] = 0x41;
    e[11] = 0x0F;
    e[1] = b'H';
    e[3] = 0xE9;
    e[5] = 0x00;
    e[6] = 0xD8;
    e[7] = 0xFF;
    e[8] = 0xFF;
    e[9] = b'x';
    let chars: String = revenant_core::fat32::decode_lfn_chars(&e).into_iter().collect();
    assert_eq!(chars, "Héx");
}

#[test]
fn short_name_placeholder_decodes_lossily() {
    let mut e = vec![0u8; 32];
    e[..11].copy_from_slice(&[0xE5, b'A', 0xFF, b'C', b' ', b' ', b' ', b' ', b'T', b'X', b'T']);
    e[26] = 5;
    e[28] = 100;
    let d = revenant_core::fat32::recursive_deleted_entry(&e, &Vec::new());
    assert_eq!(d.name, "?A\u{FFFD}C.TXT");
    assert_eq!(d.name_source, "short_name_placeholder");
    assert_eq!(d.start_cluster, 5);
    assert_eq!(d.size, 100);
    assert!(d.metadata_intact);
}

#[test]
fn only_img_files_register_as_managed_images() {
    let d = managed_image_device("imaged-raw-sda-17.img", "/data/images/imaged-raw-sda-17.img").unwrap();
    assert_eq!(d.id, "image-imaged-raw-sda-17");
    assert_eq!(d.name, "image-imaged-raw-sda-17");
    assert_eq!(d.category, "managed-image");
    assert_eq!(d.backing_path.as_deref(), Some("/data/images/imaged-raw-sda-17.img"));
    assert!(d.scan_capable);
    assert_eq!(d.unavailable_reason, None);
    assert_eq!(managed_image_device("a.b.img", "/x").unwrap().id, "image-a.b");
    assert!(managed_image_device("sidecar.json", "/x").is_none());
    assert!(managed_image_device("noext", "/x").is_none());
    assert!(managed_image_device(".img", "/x").is_none());
    assert!(managed_image_device("disk.IMG", "/x").is_none());
    assert!(managed_image_device("disk.img.bak", "/x").is_none());
}

#[test]
fn discovered_disks_register_as_physical_disks() {
    let info = RawDeviceInfo {
        id: "raw-sda".to_string(),
        name: "sda".to_string(),
        path: "/dev/sda".to_string(),
        size_bytes: 1 << 30,
        platform: "linux".to_string(),
        scan_capable: false,
        reason: Some("permission denied".to_string()),
    };
    let d = physical_disk_device(&info);
    assert_eq!((d.id.as_str(), d.name.as_str(), d.category.as_str()), ("raw-sda", "sda", "physical-disk"));
    assert_eq!(d.backing_path.as_deref(), Some("/dev/sda"));
    assert!(!d.scan_capable);
    assert_eq!(d.unavailable_reason.as_deref(), Some("permission denied"));
}

#[test]
fn fixed_width_integers_read_in_both_byte_orders() {
    let b = [0x01u8, 0x02, 0x03, 0x04, 0x05, 0x06, 0x07, 0x08, 0x09];
    assert_eq!(read_le16(&b, 0), 0x0201);
    assert_eq!(read_be16(&b, 0), 0x0102);
    assert_eq!(read_le32(&b, 1), 0x0504_0302);
    assert_eq!(read_be32(&b, 1), 0x0203_0405);
    assert_eq!(read_le64(&b, 1), 0x0908_0706_0504_0302);
    assert_eq!(read_be64(&b, 0), 0x0102_0304_0506_0708);
    assert_eq!(read_le_n(&b, 2, 3), 0x05_0403);
    assert_eq!(read_le_n(&b, 0, 0), 0);
    assert_eq!(pow256_u64(0), 1);
    assert_eq!(pow256_u64(7), 1 << 56);
    assert_eq!(saturating_mul(1 << 32, 1 << 31), 1 << 63);
    assert_eq!(saturating_mul(1 << 32, 1 << 32), u64::MAX);
}

#[test]
fn byte_pattern_matching() {
    let hay = b"xxPNGyy";
    assert!(matches_at(hay, 2, b"PNG"));
    assert!(!matches_at(hay, 3, b"PNG"));
    assert!(!matches_at(hay, 5, b"yyz"));
    assert!(eq_at(hay, 0, b"xx"));
    assert!(starts_with(hay, b"xxP"));
    assert!(!starts_with(b"xx", b"xxP"));
    assert!(eq_bytes(b"ab", b"ab"));
    assert!(!eq_bytes(b"ab", b"abc"));
}

#[test]
fn sealing_a_manifest_hashes_the_given_fields_and_keeps_the_rest() {
    let m = generate_evidence_manifest("sess", "abcd", 1024, "NTFS", 5, 3, "1700000000", "0.1.0", "0.1.0");
    let sealed = seal_manifest(m, "some text");
    assert_eq!(sealed.manifest_hash, format!("{:x}", sha2::Sha256::digest(b"some text")));
    assert_eq!((sealed.session_id.as_str(), sealed.files_failed, sealed.manifest_version), ("sess", 2, 1));
}

#[test]
fn a_type_without_a_parser_is_unsupported_never_verified() {
    let buf = vec![1u8; 64];
    let r = verify(&buf, &carved(0, 64, "xyz", true, 1000));
    assert!(!r.structurally_valid);
    assert_eq!(r.state, "UNSUPPORTED_FORMAT");
    assert_eq!(r.checks, vec![("size_nonzero".to_string(), true)]);
    let mut jpg = vec![0xFF, 0xD8, 0xFF, 0xC0, 0, 0];
    jpg.extend_from_slice(&[0xFF, 0xD9]);
    let ok = verify(&jpg, &carved(0, jpg.len(), "jpg", true, 1000));
    assert_eq!(ok.state, if ok.structurally_valid { "VERIFIED" } else { "RECOVERABLE" });
}

#[test]
fn a_source_inside_the_destination_is_within_it_by_whole_components() {
    assert!(path_within("/data/out", "/data/out"));
    assert!(path_within("/data/out/disk.img", "/data/out"));
    assert!(path_within("/data/disk.img", "/"));
    assert!(!path_within("/data/outside.img", "/data/out"));
    assert!(!path_within("/data", "/data/out"));
    assert!(path_within("C:\\out\\disk.img", "C:\\out"));
}

#[test]
fn upper_and_lower_case_hex_read_back_the_same_bytes() {
    let data: Vec<u8> = vec![0x00, 0x0A, 0x7F, 0x80, 0xAB, 0xFF];
    let upper: String = data.iter().map(|b| format!("{:02X}", b)).collect();
    let lower: String = data.iter().map(|b| format!("{:02x}", b)).collect();
    assert!(hex_text_valid(&upper));
    assert!(hex_text_valid(&lower));
    assert_eq!(hex_to_bytes(&upper), data);
    assert_eq!(hex_to_bytes(&lower), data);
}
