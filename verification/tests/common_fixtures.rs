use revenant_core::carve::{
    carve, carve_streaming, package_is_decodable, read_candidate_bytes, signatures_from_package, CarvedFile, Signature,
    StreamingCarverState,
};
use revenant_core::fixtures::{fat32_test_image, test_volume_image};
use revenant_core::fat32::Fat32Layout;
use revenant_core::engine::{classify_boot_sector, read_boot_sample, resolve_scan_source, scan_reader_with_mode, DetectedFilesystem, DeviceRegistry, RegisteredDevice};
use revenant_core::server::build_records;
use revenant_core::encryption::DataState;
use revenant_core::provider::{RawCarvingProvider, RecoveredItem};
use revenant_core::resilience::{FaultInjectingReader, ResilientReader};
use revenant_core::signatures::{default_package_json, SignatureDef, SignaturePackage};
use revenant_core::storage::{MemoryReader, StorageReader};

struct MemReader {
    data: Vec<u8>,
}

impl StorageReader for MemReader {
    fn read_range(&mut self, offset: u64, length: usize) -> std::io::Result<Vec<u8>> {
        let start = offset as usize;
        match start.checked_add(length) {
            Some(end) if end <= self.data.len() => Ok(self.data[start..end].to_vec()),
            _ => Err(std::io::Error::new(std::io::ErrorKind::UnexpectedEof, "read past end")),
        }
    }

    fn get_size(&mut self) -> std::io::Result<u64> {
        Ok(self.data.len() as u64)
    }
}

fn opt_str(v: &serde_json::Value, key: &str) -> Option<String> {
    v.get(key).and_then(|x| x.as_str()).map(|x| x.to_string())
}

fn default_package() -> SignaturePackage {
    let v: serde_json::Value = serde_json::from_str(default_package_json()).unwrap();
    let sigs = v["signatures"]
        .as_array()
        .unwrap()
        .iter()
        .map(|s| SignatureDef {
            signature_id: opt_str(s, "signature_id").unwrap(),
            file_type: opt_str(s, "file_type").unwrap(),
            ext: opt_str(s, "ext").unwrap(),
            header_hex: opt_str(s, "header_hex").unwrap(),
            footer_hex: opt_str(s, "footer_hex"),
            max_size: s["max_size"].as_u64().unwrap() as usize,
            version: s["version"].as_u64().unwrap() as u32,
            offset_rule: opt_str(s, "offset_rule"),
            parser: opt_str(s, "parser"),
            container: opt_str(s, "container"),
            fragmentation_strategy: opt_str(s, "fragmentation_strategy"),
        })
        .collect();
    SignaturePackage {
        package_version: opt_str(&v, "package_version").unwrap(),
        signatures: sigs,
    }
}

fn default_signatures() -> Vec<Signature> {
    signatures_from_package(&default_package())
}

fn test_volume() -> Vec<u8> {
    test_volume_image()
}

fn fat32_image() -> Vec<u8> {
    fat32_test_image()
}

#[test]
fn resilient_reader_bad_sectors_are_real_not_hardcoded_zero() {
    let real = MemReader { data: fat32_image() };
    let faulty = FaultInjectingReader::new(real, vec![(1000, 1512), (50000, 50512)]);
    let mut resilient = ResilientReader::new(faulty, 2);
    let _ = resilient.read_range(500, 51000).unwrap();
    assert!(
        resilient.bad_sectors.len() >= 2,
        "expected at least 2 bad sectors recorded, got {}",
        resilient.bad_sectors.len()
    );
}

#[test]
fn streaming_carve_matches_single_shot_carve_with_tiny_chunks() {
    let whole = test_volume();
    let sigs = default_signatures();
    let single_shot = carve(&whole, &sigs);
    let mut reader = MemReader { data: whole.clone() };
    let streamed = carve_streaming(&mut reader, &sigs, 2048, 512);
    assert_eq!(single_shot.len(), streamed.len());
    let mut single_offsets: Vec<usize> = single_shot.iter().map(|c| c.offset).collect();
    let mut streamed_offsets: Vec<usize> = streamed.iter().map(|c| c.offset).collect();
    single_offsets.sort();
    streamed_offsets.sort();
    assert_eq!(single_offsets, streamed_offsets);
}

#[test]
fn scan_never_mutates_source_image() {
    let image = fat32_image();
    let before = image.clone();
    let mut reader = ResilientReader::new(MemReader { data: image }, 3);
    let pkg = default_package();
    let result = scan_reader_with_mode(&mut reader, &pkg, 4 * 1024 * 1024, 1024 * 1024, "quick", DataState::Recoverable, None);
    assert_eq!(result.filesystem, "FAT32");
    assert_eq!(result.metadata_provider_name.as_deref(), Some("Fat32FilesystemProvider"));
    // After the scan, the scanned reader still serves exactly the bytes it
    // started with.
    let after = reader.read_range(0, before.len()).unwrap();
    let hash = |b: &[u8]| format!("{:x}", <sha2::Sha256 as sha2::Digest>::digest(b));
    assert_eq!(hash(&after), hash(&before), "SOURCE IMAGE WAS MUTATED BY A SCAN");
}

#[test]
fn full_pipeline_scan_finds_embedded_jpeg_and_png() {
    let mut reader = ResilientReader::new(MemReader { data: test_volume() }, 3);
    let pkg = default_package();
    let result = scan_reader_with_mode(&mut reader, &pkg, 1024 * 1024, 512 * 1024, "deep", DataState::Recoverable, None);
    assert_eq!(result.filesystem, "Unknown");
    assert!(result.metadata_provider_name.is_none());
    let carved: Vec<(usize, String, bool)> = result
        .items
        .iter()
        .filter_map(|i| match i {
            RecoveredItem::Carved { file, data } => {
                assert_eq!(data.len(), file.size);
                Some((file.offset, file.ext.clone(), file.complete))
            }
            _ => None,
        })
        .collect();
    assert!(carved.iter().any(|(o, e, _)| *o == 128 && e == "jpg"), "got {carved:?}");
    assert!(carved.iter().any(|(o, e, _)| *o == 2048 && e == "png"), "got {carved:?}");
    assert_eq!(result.analysis.bad_sector_count, 0);
    assert_eq!(result.analysis.encryption_status, "Recoverable");
}

#[test]
fn detect_filesystem_reads_the_boot_sector() {
    let mut fat = MemReader { data: fat32_image() };
    assert_eq!(revenant_core::engine::detect_filesystem(&mut fat), DetectedFilesystem::Fat32);
    let mut empty = MemReader { data: vec![0u8; 100] };
    assert_eq!(revenant_core::engine::detect_filesystem(&mut empty), DetectedFilesystem::Unknown);
}

#[test]
fn quick_mode_keeps_only_structurally_confirmed_candidates() {
    let sigs = default_signatures();
    let mut reader = MemReader { data: test_volume() };
    let quick = revenant_core::carve::carve_streaming_mode(&mut reader, &sigs, 2048, 512, "QUICK");
    assert!(!quick.is_empty());
    assert!(quick.iter().all(|c| c.complete));
    for w in quick.windows(2) {
        assert!(w[0].offset <= w[1].offset);
    }
}

#[test]
fn single_shot_carve_finds_footers() {
    let whole = test_volume();
    let sigs = default_signatures();
    let found = carve(&whole, &sigs);
    let jpeg = found.iter().find(|c| c.offset == 128).expect("jpeg at 128");
    assert_eq!(jpeg.ext, "jpg");
    assert!(jpeg.complete);
    assert_eq!(jpeg.size, 3 + 80 + 2);
    let png = found.iter().find(|c| c.offset == 2048).expect("png at 2048");
    assert!(png.complete);
    assert_eq!(png.size, 8 + 1400 + 8);
    for w in found.windows(2) {
        assert!(w[0].offset + w[0].size <= w[1].offset);
    }
}

#[test]
fn resilient_read_zero_fills_unreadable_sectors() {
    let mut data = vec![7u8; 4096];
    data[0] = 1;
    let faulty = FaultInjectingReader::new(MemReader { data }, vec![(512, 1024)]);
    let mut r = ResilientReader::new(faulty, 3);
    let out = r.read_resilient(0, 2048);
    assert_eq!(out.len(), 2048);
    assert_eq!(out[0], 1);
    assert!(out[512..1024].iter().all(|b| *b == 0));
    assert!(out[1024..2048].iter().all(|b| *b == 7));
    assert_eq!(r.bad_sectors.len(), 1);
    assert_eq!(r.bad_sectors[0].offset, 512);
    assert_eq!(r.bad_sectors[0].length, 512);
    assert_eq!(r.bad_sectors[0].attempts, 3);
    assert_eq!(r.bad_sectors[0].classification, "io_error_after_retry");
    assert_eq!(r.bad_sector_count(), 1);
}

#[test]
fn fault_injecting_reader_fails_overlapping_reads_with_eof() {
    let mut f = FaultInjectingReader::new(MemReader { data: vec![0u8; 4096] }, vec![(100, 200)]);
    let e = f.read_range(150, 10).unwrap_err();
    assert_eq!(e.kind(), std::io::ErrorKind::UnexpectedEof);
    assert_eq!(f.read_range(200, 10).unwrap().len(), 10);
}

#[test]
fn resilient_reader_refuses_a_range_past_the_address_space() {
    let mut r = ResilientReader::new(MemReader { data: vec![0u8; 16] }, 1);
    let e = r.read_range(u64::MAX, 2).unwrap_err();
    assert_eq!(e.kind(), std::io::ErrorKind::InvalidData);
    assert_eq!(r.read_range(0, 16).unwrap(), vec![0u8; 16]);
}

#[test]
fn full_pipeline_scan_to_session_persist() {
    let image = test_volume();
    let before = image.clone();
    let mut registry = DeviceRegistry::new();
    registry.register(RegisteredDevice {
        id: "integ-device".to_string(),
        name: "Integration Test Image".to_string(),
        category: "test-fixture".to_string(),
        backing_path: Some("integration.img".to_string()),
        scan_capable: true,
        unavailable_reason: None,
    });
    let path = match resolve_scan_source(&registry, "integ-device") {
        Ok(p) => p,
        Err(_) => panic!("scan must succeed"),
    };
    assert_eq!(path, "integration.img");
    let pkg = default_package();
    let mut reader = ResilientReader::new(MemReader { data: image }, 3);
    let result = scan_reader_with_mode(&mut reader, &pkg, 2 * 1024 * 1024, 512 * 1024, "deep", DataState::Recoverable, None);
    assert!(!result.items.is_empty(), "scan must find the embedded JPEG and PNG - got 0 candidates");
    let mut check = MemReader { data: before.clone() };
    assert_eq!(check.read_range(0, before.len()).unwrap(), before, "SOURCE MUTATED BY SCAN");
    // The session's records, as the service stores them.
    let scores = vec![90u8; result.items.len()];
    let records = build_records("integ-session-001", &result.items, &scores);
    assert_eq!(records.len(), result.items.len());
    assert_eq!(records[0].id, "integ-session-001-0");
}

#[test]
fn fixture_images_have_the_documented_layout() {
    let vol = test_volume_image();
    assert_eq!(vol.len(), 10613);
    assert_eq!(&vol[128..131], &[0xFF, 0xD8, 0xFF]);
    assert_eq!(&vol[211..213], &[0xFF, 0xD9]);
    assert_eq!(&vol[2048..2056], &[0x89, 0x50, 0x4E, 0x47, 0x0D, 0x0A, 0x1A, 0x0A]);
    assert_eq!(&vol[5512..5515], &[0xFF, 0xD8, 0xFF]);
    assert_eq!(&vol[6515..6517], &[0xFF, 0xD9]);
    assert!(vol[..128].iter().all(|b| *b == 0));

    let img = fat32_test_image();
    assert_eq!(img.len(), 16384);
    assert_eq!(&img[3..11], b"MSWIN4.1");
    assert_eq!(&img[82..90], b"FAT32   ");
    assert_eq!((img[510], img[511]), (0x55, 0xAA));
    assert_eq!(classify_boot_sector(&img[..512]), DetectedFilesystem::Fat32);
    let l = Fat32Layout::parse(&img[..512]);
    assert_eq!((l.bytes_per_sector, l.sectors_per_cluster, l.reserved_sectors, l.num_fats), (512, 1, 32, 2));
    assert_eq!((l.sectors_per_fat, l.root_cluster, l.fat_start, l.data_start, l.cluster_size), (1, 2, 16384, 17408, 512));
}

#[test]
fn raw_carving_provider_attaches_each_candidate_bytes() {
    let vol = test_volume();
    let provider = RawCarvingProvider { signature_package: default_package(), chunk_size: 2048, overlap: 512 };
    let mut r = MemReader { data: vol.clone() };
    let items = provider.recover_with_mode(&mut r, "deep");
    let offsets: Vec<usize> = items
        .iter()
        .map(|i| match i {
            RecoveredItem::Carved { file, data } => {
                assert_eq!(&data[..], &vol[file.offset..file.offset + file.size]);
                file.offset
            }
            _ => panic!("raw carving gives carved items only"),
        })
        .collect();
    assert!(offsets.contains(&128) && offsets.contains(&2048) && offsets.contains(&5512), "got {offsets:?}");
}

#[test]
fn candidate_bytes_are_reread_or_empty() {
    let vol = test_volume();
    let mut r = MemReader { data: vol.clone() };
    let f = CarvedFile {
        offset: 128,
        size: 85,
        file_type: "image".to_string(),
        ext: "jpg".to_string(),
        complete: true,
        max_size: 1000,
        coverage_cap_percent: 100,
    };
    assert_eq!(read_candidate_bytes(&mut r, &f), vol[128..213].to_vec());
    let past = CarvedFile { offset: vol.len() - 10, size: 85, ..f };
    assert!(read_candidate_bytes(&mut r, &past).is_empty());
}

#[test]
fn streaming_state_resets_to_clear() {
    let mut st = StreamingCarverState::new();
    st.candidate_start = Some(5);
    st.signature_state = "jpg".to_string();
    st.reset();
    assert!(st.active_candidates.is_empty());
    assert_eq!((st.candidate_start, st.candidate_end), (None, None));
    assert!(st.signature_state.is_empty() && st.footer_state.is_empty() && st.format_parser_state.is_empty());
}

#[test]
fn package_hex_is_checked_before_carving() {
    let mut pkg = default_package();
    assert!(package_is_decodable(&pkg));
    pkg.signatures[0].header_hex = "FFD8F".to_string();
    assert!(!package_is_decodable(&pkg));
}

#[test]
fn boot_sample_is_the_first_4096_bytes_zero_filled_where_unreadable() {
    let img = fat32_image();
    let mut r = ResilientReader::new(MemReader { data: img.clone() }, 2);
    assert_eq!(read_boot_sample(&mut r), img[..4096].to_vec());
    assert_eq!(r.bad_sector_count(), 0);
    let mut short = ResilientReader::new(MemReader { data: vec![7u8; 1000] }, 2);
    let sample = read_boot_sample(&mut short);
    assert_eq!(sample.len(), 4096);
    assert!(sample[..512].iter().all(|b| *b == 7));
    assert!(sample[512..].iter().all(|b| *b == 0));
    assert_eq!(short.bad_sector_count(), 7);
}

#[test]
fn streaming_accepts_a_candidate_only_past_the_last_accepted_end() {
    let sig = Signature {
        file_type: "archive".to_string(),
        ext: "bin".to_string(),
        header: b"QZX".to_vec(),
        footer: None,
        max_size: 100,
        parser: None,
        container: None,
        fragmentation_strategy: None,
    };
    let mut data = vec![0u8; 300];
    data[0..3].copy_from_slice(b"QZX");
    data[10..13].copy_from_slice(b"QZX");
    data[150..153].copy_from_slice(b"QZX");
    let sigs = vec![sig];
    let mut r = MemReader { data: data.clone() };
    let streamed: Vec<(usize, usize)> = carve_streaming(&mut r, &sigs, 64, 16).iter().map(|c| (c.offset, c.size)).collect();
    assert_eq!(streamed, vec![(0, 100), (150, 100)]);
    for w in streamed.windows(2) {
        assert!(w[0].0 + w[0].1 <= w[1].0);
    }
    let single: Vec<usize> = carve(&data, &sigs).iter().map(|c| c.offset).collect();
    assert_eq!(single, vec![0, 10, 150]);
}

#[test]
fn streaming_carve_of_a_memory_image_ignores_chunking_and_stays_inside() {
    let whole = test_volume();
    let sigs = default_signatures();
    let key = |v: &Vec<CarvedFile>| v.iter().map(|c| (c.offset, c.size, c.ext.clone(), c.complete)).collect::<Vec<_>>();
    let small = carve_streaming(&mut MemoryReader::new(whole.clone()), &sigs, 2048, 512);
    let large = carve_streaming(&mut MemoryReader::new(whole.clone()), &sigs, 4 * 1024 * 1024, 0);
    let swapped = carve_streaming(&mut MemoryReader::new(whole.clone()), &sigs, 512, 2048);
    assert!(!small.is_empty());
    assert_eq!(key(&small), key(&large));
    assert_eq!(key(&small), key(&swapped));
    for c in &small {
        assert!(c.offset + c.size <= whole.len());
        assert!(c.size <= c.max_size);
    }
}

#[test]
fn an_engine_scan_of_a_memory_image_carves_what_the_streaming_carver_finds() {
    let img = test_volume();
    let pkg = default_package();
    let sigs = signatures_from_package(&pkg);
    let expected: Vec<(usize, usize, String)> =
        revenant_core::carve::carve_streaming_mode(&mut MemoryReader::new(img.clone()), &sigs, 65536, 0, "deep")
            .iter()
            .map(|c| (c.offset, c.size, c.ext.clone()))
            .collect();
    let mut reader = ResilientReader::new(MemoryReader::new(img), 3);
    let result = scan_reader_with_mode(&mut reader, &pkg, 1024 * 1024, 512 * 1024, "deep", DataState::Recoverable, None);
    let carved: Vec<(usize, usize, String)> = result
        .items
        .iter()
        .filter_map(|i| match i {
            RecoveredItem::Carved { file, .. } => Some((file.offset, file.size, file.ext.clone())),
            _ => None,
        })
        .collect();
    assert!(!expected.is_empty());
    assert_eq!(carved, expected);
    assert_eq!(result.analysis.bad_sector_count, 0);
}

#[test]
fn every_carved_candidate_belongs_to_the_signature_found_at_its_offset() {
    let whole = test_volume();
    let sigs = default_signatures();
    let found = carve(&whole, &sigs);
    assert!(!found.is_empty());
    for c in &found {
        let sig = sigs
            .iter()
            .find(|s| whole[c.offset..].starts_with(&s.header))
            .expect("a header starts at every candidate");
        assert_eq!(c.ext, sig.ext);
        assert_eq!(c.file_type, sig.file_type);
        assert!(sig.header.len() <= c.size && c.size <= sig.max_size);
        if c.complete {
            let footer = sig.footer.as_ref().expect("a complete candidate has a footer");
            assert!(whole[..c.offset + c.size].ends_with(footer));
        }
    }
}
