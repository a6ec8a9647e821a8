use revenant_core::ntfs::{
    decode_data_runs, deleted_record_from, looks_like_ntfs, map_runlist_offset, mft_self_runs, parse_attributes, ntfs_boot_sector_usable, utf16le_to_string, NtfsLayout, parse_boot_sector, read_runs, resolve_data_runs, scan_mft_for_deleted,
    scan_mft_for_deleted_full, NtfsDeletedRecord,
};
use revenant_core::storage::StorageReader;

struct MemReader {
    data: Vec<u8>,
}

impl StorageReader for MemReader {
    fn read_range(&mut self, offset: u64, length: usize) -> std::io::Result<Vec<u8>> {
        let start = offset as usize;
        match start.checked_add(length) {
            Some(end) if end <= self.data.len() => Ok(self.data[start..end].to_vec()),
            _ => Err(std::io::Error::new(std::io::ErrorKind::UnexpectedEof, "read past end")),
        }
    }

    fn get_size(&mut self) -> std::io::Result<u64> {
        Ok(self.data.len() as u64)
    }
}

const MFT_OFFSET: usize = 2048;
const RECORD: usize = 1024;

fn round8(n: usize) -> usize {
    (n + 7) / 8 * 8
}

fn file_name_attr(name: &str) -> Vec<u8> {
    let units: Vec<u16> = name.encode_utf16().collect();
    let content_len = 66 + 2 * units.len();
    let len = round8(24 + content_len);
    let mut a = vec![0u8; len];
    a[0..4].copy_from_slice(&0x30u32.to_le_bytes());
    a[4..8].copy_from_slice(&(len as u32).to_le_bytes());
    a[16..20].copy_from_slice(&(content_len as u32).to_le_bytes());
    a[20..22].copy_from_slice(&24u16.to_le_bytes());
    a[24 + 64] = units.len() as u8;
    a[24 + 65] = 1;
    for (k, u) in units.iter().enumerate() {
        a[24 + 66 + 2 * k..24 + 68 + 2 * k].copy_from_slice(&u.to_le_bytes());
    }
    a
}

fn resident_data_attr(data: &[u8]) -> Vec<u8> {
    let len = round8(24 + data.len());
    let mut a = vec![0u8; len];
    a[0..4].copy_from_slice(&0x80u32.to_le_bytes());
    a[4..8].copy_from_slice(&(len as u32).to_le_bytes());
    a[16..20].copy_from_slice(&(data.len() as u32).to_le_bytes());
    a[20..22].copy_from_slice(&24u16.to_le_bytes());
    a[24..24 + data.len()].copy_from_slice(data);
    a
}

fn nonresident_data_attr(size: u64, runlist: &[u8]) -> Vec<u8> {
    let len = round8(64 + runlist.len());
    let mut a = vec![0u8; len];
    a[0..4].copy_from_slice(&0x80u32.to_le_bytes());
    a[4..8].copy_from_slice(&(len as u32).to_le_bytes());
    a[8] = 1;
    a[32..34].copy_from_slice(&64u16.to_le_bytes());
    a[48..56].copy_from_slice(&size.to_le_bytes());
    a[64..64 + runlist.len()].copy_from_slice(runlist);
    a
}

/// A FILE record with an update sequence array of three entries (two
/// sectors), attributes from offset 56, and the given flags.
fn record(flags: u16, attrs: &[Vec<u8>]) -> Vec<u8> {
    let mut r = vec![0u8; RECORD];
    r[0..4].copy_from_slice(b"FILE");
    r[4..6].copy_from_slice(&48u16.to_le_bytes());
    r[6..8].copy_from_slice(&3u16.to_le_bytes());
    r[20..22].copy_from_slice(&56u16.to_le_bytes());
    r[22..24].copy_from_slice(&flags.to_le_bytes());
    r[48..50].copy_from_slice(&[0x07, 0x00]);
    let mut pos = 56;
    for a in attrs {
        r[pos..pos + a.len()].copy_from_slice(a);
        pos += a.len();
    }
    r[pos..pos + 4].copy_from_slice(&0xFFFF_FFFFu32.to_le_bytes());
    r[510..512].copy_from_slice(&[0x07, 0x00]);
    r[1022..1024].copy_from_slice(&[0x07, 0x00]);
    r
}

/// 512-byte sectors and clusters, the MFT at cluster 4 with 1024-byte
/// records: $MFT itself, a deleted file with resident data, a deleted
/// directory, a deleted file with two data runs, and a deleted record
/// whose fixup is torn.
fn volume() -> Vec<u8> {
    let mut img = vec![0u8; 16 * 1024];
    img[3..11].copy_from_slice(b"NTFS    ");
    img[11..13].copy_from_slice(&512u16.to_le_bytes());
    img[13] = 1;
    img[48..56].copy_from_slice(&4u64.to_le_bytes());
    img[64] = 0xF6;
    let records = [
        record(1, &[file_name_attr("$MFT"), nonresident_data_attr(5 * RECORD as u64, &[0x11, 10, 4, 0])]),
        record(0, &[file_name_attr("notes.txt"), resident_data_attr(b"hello ntfs")]),
        record(2, &[file_name_attr("olddir")]),
        record(0, &[file_name_attr("big.bin"), nonresident_data_attr(1700, &[0x21, 3, 20, 0, 0x11, 1, 0xFE, 0])]),
        {
            let mut torn = record(0, &[file_name_attr("torn.doc")]);
            torn[1022] = 0x08;
            torn
        },
    ];
    for (k, r) in records.iter().enumerate() {
        img[MFT_OFFSET + k * RECORD..MFT_OFFSET + (k + 1) * RECORD].copy_from_slice(r);
    }
    for k in 0..1536usize {
        img[20 * 512 + k] = (k % 7) as u8 + 1;
    }
    for k in 0..512usize {
        img[18 * 512 + k] = 0xAB;
    }
    img
}

type View = (u64, String, u64, bool, Vec<(i64, u64)>, Option<Vec<u8>>);

fn view(r: &NtfsDeletedRecord) -> View {
    (r.mft_record_index, r.name.clone(), r.logical_size, r.is_directory, r.data_runs.clone(), r.resident_data.clone())
}

fn expected() -> Vec<View> {
    vec![
        (1, "notes.txt".to_string(), 10, false, vec![], Some(b"hello ntfs".to_vec())),
        (2, "olddir".to_string(), 0, true, vec![], None),
        (3, "big.bin".to_string(), 1700, false, vec![(20, 3), (18, 1)], None),
    ]
}

#[test]
fn boot_sector_gives_the_mft_geometry() {
    let mut r = MemReader { data: volume() };
    let l = parse_boot_sector(&mut r).unwrap();
    assert_eq!((l.bytes_per_sector, l.sectors_per_cluster, l.cluster_size), (512, 1, 512));
    assert_eq!((l.mft_offset, l.mft_record_size), (2048, 1024));
}

#[test]
fn full_scan_follows_the_mft_run_list_and_checks_fixups() {
    let mut r = MemReader { data: volume() };
    let l = parse_boot_sector(&mut r).unwrap();
    let found: Vec<View> = scan_mft_for_deleted_full(&mut r, &l).iter().map(view).collect();
    assert_eq!(found, expected());
}

#[test]
fn prefix_scan_reads_contiguous_records_without_fixup_checks() {
    let mut r = MemReader { data: volume() };
    let l = parse_boot_sector(&mut r).unwrap();
    let found: Vec<View> = scan_mft_for_deleted(&mut r, &l, 5).iter().map(view).collect();
    let mut want = expected();
    want.push((4, "torn.doc".to_string(), 0, false, vec![], None));
    assert_eq!(found, want);
    let two: Vec<View> = scan_mft_for_deleted(&mut r, &l, 2).iter().map(view).collect();
    assert_eq!(two, expected()[..1].to_vec());
}

#[test]
fn data_runs_decode_with_signed_relative_offsets() {
    assert_eq!(decode_data_runs(&[0x21, 3, 20, 0, 0x11, 1, 0xFE, 0]), vec![(20, 3), (18, 1)]);
    assert_eq!(decode_data_runs(&[0x11, 10, 4, 0]), vec![(4, 10)]);
    assert_eq!(decode_data_runs(&[0x01, 5, 0]), vec![(0, 5)]);
    assert_eq!(decode_data_runs(&[0x21, 3, 20]), vec![]);
    assert_eq!(decode_data_runs(&[]), vec![]);
}

#[test]
fn run_list_offsets_map_virtual_to_physical() {
    let runs = [(4i64, 2u64), (-1, 1), (10, 1)];
    assert_eq!(map_runlist_offset(&runs, 512, 0), Some(2048));
    assert_eq!(map_runlist_offset(&runs, 512, 1000), Some(3048));
    assert_eq!(map_runlist_offset(&runs, 512, 1024), None);
    assert_eq!(map_runlist_offset(&runs, 512, 1536), Some(5120));
    assert_eq!(map_runlist_offset(&runs, 512, 2048), None);
}

#[test]
fn file_bytes_come_from_resolved_runs() {
    let mut r = MemReader { data: volume() };
    let l = parse_boot_sector(&mut r).unwrap();
    let runs = resolve_data_runs(&l, &[(20, 3), (18, 1)], 1700);
    assert_eq!(runs, vec![(10240, 1536), (9216, 164)]);
    let bytes = read_runs(&mut r, &runs, usize::MAX);
    assert_eq!(bytes.len(), 1700);
    assert!(bytes[..1536].iter().enumerate().all(|(k, b)| *b == (k % 7) as u8 + 1));
    assert!(bytes[1536..].iter().all(|b| *b == 0xAB));
    let sparse = resolve_data_runs(&l, &[(-1, 1), (20, 1)], 600);
    assert_eq!(sparse, vec![(u64::MAX, 512), (10240, 88)]);
    let filled = read_runs(&mut r, &sparse, usize::MAX);
    assert_eq!(filled.len(), 600);
    assert!(filled[..512].iter().all(|b| *b == 0));
    assert_eq!(filled[512], 1);
}

#[test]
fn record_size_from_clusters_and_unusable_boot_sectors() {
    let mut b = volume()[..512].to_vec();
    b[13] = 8;
    b[64] = 2;
    assert!(ntfs_boot_sector_usable(&b));
    let l = NtfsLayout::parse(&b);
    assert_eq!((l.cluster_size, l.mft_record_size, l.mft_offset), (4096, 8192, 16384));
    b[64] = 0x80;
    assert!(!ntfs_boot_sector_usable(&b));
    b[64] = 0xE1;
    assert!(ntfs_boot_sector_usable(&b));
    assert_eq!(NtfsLayout::parse(&b).mft_record_size, 1 << 31);
    b[64] = 0xF6;
    b[48..56].copy_from_slice(&u64::MAX.to_le_bytes());
    assert!(!ntfs_boot_sector_usable(&b));
    assert!(!ntfs_boot_sector_usable(&b[..64]));
    let mut short = MemReader { data: vec![0u8; 100] };
    assert!(parse_boot_sector(&mut short).is_err());
}

#[test]
fn names_decode_as_lossy_utf16() {
    assert_eq!(utf16le_to_string(&[0x61, 0x00, 0x62, 0x00]), "ab");
    assert_eq!(utf16le_to_string(&[0x3D, 0xD8, 0x00, 0xDE]), "\u{1F600}");
    assert_eq!(utf16le_to_string(&[0x3D, 0xD8, 0x61, 0x00]), "\u{FFFD}a");
    assert_eq!(utf16le_to_string(&[0x61, 0x00, 0x62]), "a");
}

#[test]
fn single_records_and_attribute_lists() {
    let img = volume();
    assert!(looks_like_ntfs(&img[..512]));
    assert!(!looks_like_ntfs(b"\xEB\x58\x90MSWIN4.1"));
    let rec = |k: usize| img[MFT_OFFSET + k * RECORD..MFT_OFFSET + (k + 1) * RECORD].to_vec();
    assert_eq!(mft_self_runs(&rec(0), 512), Some((5 * RECORD as u64, vec![(4, 10)])));
    assert_eq!(deleted_record_from(7, &rec(1), 512, true).map(|r| view(&r)), Some((7, "notes.txt".to_string(), 10, false, vec![], Some(b"hello ntfs".to_vec()))));
    assert!(deleted_record_from(0, &rec(0), 512, true).is_none());
    assert!(deleted_record_from(4, &rec(4), 512, true).is_none());
    assert!(deleted_record_from(4, &rec(4), 512, false).is_some());
    let (name, size, resident, runs) = parse_attributes(&rec(3), 56).unwrap();
    assert_eq!((name.as_str(), size, resident, runs), ("big.bin", 1700, None, vec![(20, 3), (18, 1)]));
    assert!(parse_attributes(&rec(3), 1016).is_none());
}

fn file_name_attr_in(name: &str, namespace: u8) -> Vec<u8> {
    let mut a = file_name_attr(name);
    a[24 + 65] = namespace;
    a
}

#[test]
fn the_record_name_is_the_last_non_dos_file_name_else_the_first() {
    let long_then_dos = record(0, &[file_name_attr_in("Long Name.txt", 1), file_name_attr_in("LONGNA~1.TXT", 2)]);
    assert_eq!(parse_attributes(&long_then_dos, 56).unwrap().0, "Long Name.txt");
    let dos_then_long = record(0, &[file_name_attr_in("LONGNA~1.TXT", 2), file_name_attr_in("Long Name.txt", 3)]);
    assert_eq!(parse_attributes(&dos_then_long, 56).unwrap().0, "Long Name.txt");
    let two_long = record(0, &[file_name_attr_in("first.txt", 1), file_name_attr_in("second.txt", 0)]);
    assert_eq!(parse_attributes(&two_long, 56).unwrap().0, "second.txt");
    let only_dos = record(0, &[file_name_attr_in("A~1.TXT", 2), file_name_attr_in("B~1.TXT", 2)]);
    assert_eq!(parse_attributes(&only_dos, 56).unwrap().0, "A~1.TXT");
    let no_name = record(0, &[resident_data_attr(b"data")]);
    assert!(parse_attributes(&no_name, 56).is_none());
}
