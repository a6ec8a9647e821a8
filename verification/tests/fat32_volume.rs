use revenant_core::fat32::{
    fat_entry_value, lfn_checksum, parse_boot_sector, read_runs, recover_file_runs, scan_deleted_recursive, scan_root_directory_for_deleted,
    DeletedEntry, Fat32Layout,
};
use revenant_core::fixtures::fat32_test_image;
use revenant_core::storage::{MemoryReader, StorageReader};

struct MemReader {
    data: Vec<u8>,
}

impl StorageReader for MemReader {
    fn read_range(&mut self, offset: u64, length: usize) -> std::io::Result<Vec<u8>> {
        let start = offset as usize;
        match start.checked_add(length) {
            Some(end) if end <= self.data.len() => Ok(self.data[start..end].to_vec()),
            _ => Err(std::io::Error::new(std::io::ErrorKind::UnexpectedEof, "read past end")),
        }
    }

    fn get_size(&mut self) -> std::io::Result<u64> {
        Ok(self.data.len() as u64)
    }
}

const FAT_START: usize = 16384;
const DATA_START: usize = 17408;
const CLUSTER: usize = 512;

fn cluster_at(c: usize) -> usize {
    DATA_START + (c - 2) * CLUSTER
}

fn short_entry(name: &[u8; 11], attr: u8, start: u32, size: u32) -> [u8; 32] {
    let mut e = [0u8; 32];
    e[..11].copy_from_slice(name);
    e[11] = attr;
    e[20..22].copy_from_slice(&((start >> 16) as u16).to_le_bytes());
    e[26..28].copy_from_slice(&((start & 0xFFFF) as u16).to_le_bytes());
    e[28..32].copy_from_slice(&size.to_le_bytes());
    e
}

fn lfn_entry(first: u8, text: &str, checksum: u8) -> [u8; 32] {
    let mut e = [0u8; 32];
    e[0] = first;
    e[11] = 0x0F;
    e[13] = checksum;
    let units: Vec<u16> = text.encode_utf16().collect();
    for (k, off) in [1usize, 3, 5, 7, 9, 14, 16, 18, 20, 22, 24, 28, 30].iter().enumerate() {
        let u = if k < units.len() {
            units[k]
        } else if k == units.len() {
            0x0000
        } else {
            0xFFFF
        };
        e[*off..*off + 2].copy_from_slice(&u.to_le_bytes());
    }
    e
}

/// The fixture boot sector over 32 KiB: a root directory at cluster 2
/// holding a deleted long-named file, a deleted short-named one and a live
/// subdirectory at cluster 3 that holds one more deleted file.
fn volume() -> Vec<u8> {
    let mut img = fat32_test_image();
    img.resize(32 * 1024, 0);
    let mut set_fat = |img: &mut Vec<u8>, c: usize, v: u32| {
        img[FAT_START + 4 * c..FAT_START + 4 * c + 4].copy_from_slice(&v.to_le_bytes());
    };
    set_fat(&mut img, 2, 0x0FFF_FFFF);
    set_fat(&mut img, 3, 0x0FFF_FFFF);
    set_fat(&mut img, 5, 6);
    set_fat(&mut img, 6, 8);
    set_fat(&mut img, 8, 0x0FFF_FFFF);

    let photo: [u8; 11] = *b"\xE5HOTO   JPG";
    let root = [
        lfn_entry(0xE5, "name.jpg", lfn_checksum(&photo)),
        lfn_entry(0xE5, "a_long_photo_", lfn_checksum(&photo)),
        short_entry(&photo, 0x20, 5, 1234),
        short_entry(b"\xE5EADME  TXT", 0x20, 0, 10),
        short_entry(b"SUB        ", 0x10, 3, 0),
    ];
    let sub = [
        short_entry(b".          ", 0x10, 3, 0),
        short_entry(b"..         ", 0x10, 0, 0),
        short_entry(b"\xE5OTES   MD ", 0x20, 9, 77),
    ];
    for (k, e) in root.iter().enumerate() {
        let at = cluster_at(2) + 32 * k;
        img[at..at + 32].copy_from_slice(e);
    }
    for (k, e) in sub.iter().enumerate() {
        let at = cluster_at(3) + 32 * k;
        img[at..at + 32].copy_from_slice(e);
    }
    for k in 0..1234usize {
        let at = if k < 1024 { cluster_at(5) + k } else { cluster_at(8) + (k - 1024) };
        img[at] = (k % 251) as u8;
    }
    img
}

fn layout_of(img: &[u8]) -> Fat32Layout {
    let mut r = MemReader { data: img.to_vec() };
    parse_boot_sector(&mut r).unwrap()
}

fn view(e: &DeletedEntry) -> (String, String, u32, u32, bool) {
    (e.name.clone(), e.name_source.clone(), e.start_cluster, e.size, e.metadata_intact)
}

#[test]
fn root_scan_reconstructs_long_names_and_keeps_placeholders() {
    let img = volume();
    let layout = layout_of(&img);
    let mut r = MemReader { data: img };
    let found: Vec<_> = scan_root_directory_for_deleted(&mut r, &layout).iter().map(view).collect();
    assert_eq!(
        found,
        vec![
            ("a_long_photo_name.jpg".to_string(), "long_filename_reconstructed".to_string(), 5, 1234, true),
            ("?EADME.TXT".to_string(), "short_name_placeholder".to_string(), 0, 10, false),
        ]
    );
}

#[test]
fn recursive_scan_descends_into_live_directories() {
    let img = volume();
    let layout = layout_of(&img);
    let mut r = MemReader { data: img };
    let found: Vec<_> = scan_deleted_recursive(&mut r, &layout).iter().map(view).collect();
    assert_eq!(
        found,
        vec![
            ("a_long_photo_name.jpg".to_string(), "long_filename_reconstructed".to_string(), 5, 1234, true),
            ("?OTES.MD".to_string(), "short_name_placeholder".to_string(), 9, 77, true),
        ]
    );
}

#[test]
fn a_wrong_checksum_falls_back_to_the_short_name() {
    let mut img = volume();
    img[cluster_at(2) + 13] ^= 0xFF;
    let layout = layout_of(&img);
    let mut r = MemReader { data: img };
    let found = scan_root_directory_for_deleted(&mut r, &layout);
    assert_eq!(found[0].name, "?HOTO.JPG");
    assert_eq!(found[0].name_source, "short_name_placeholder");
}

#[test]
fn file_runs_follow_the_chain_and_merge_adjacent_clusters() {
    let img = volume();
    let layout = layout_of(&img);
    let mut r = MemReader { data: img.clone() };
    let entry = scan_root_directory_for_deleted(&mut r, &layout).remove(0);
    let (runs, intact) = recover_file_runs(&mut r, &layout, &entry);
    assert_eq!(runs, vec![(cluster_at(5) as u64, 1024), (cluster_at(8) as u64, 210)]);
    assert!(intact);
    let bytes = read_runs(&mut r, &runs, usize::MAX);
    assert_eq!(bytes.len(), 1234);
    assert!(bytes.iter().enumerate().all(|(k, b)| *b == (k % 251) as u8));
    assert_eq!(read_runs(&mut r, &runs, 100).len(), 100);
}

#[test]
fn a_broken_chain_falls_back_to_contiguous_clusters() {
    let mut img = volume();
    img[FAT_START + 4 * 5..FAT_START + 4 * 5 + 4].copy_from_slice(&0u32.to_le_bytes());
    let layout = layout_of(&img);
    let mut r = MemReader { data: img };
    let entry = DeletedEntry {
        name: "x".to_string(),
        name_source: "short_name_placeholder".to_string(),
        start_cluster: 5,
        size: 1234,
        metadata_intact: true,
    };
    let (runs, intact) = recover_file_runs(&mut r, &layout, &entry);
    assert_eq!(runs, vec![(cluster_at(5) as u64, 1234)]);
    assert!(!intact);
    let empty = DeletedEntry { size: 0, ..entry };
    assert_eq!(recover_file_runs(&mut r, &layout, &empty), (Vec::new(), true));
}

#[test]
fn cluster_offsets_and_fat_entries() {
    let mut img = volume();
    img[FAT_START + 4 * 9..FAT_START + 4 * 9 + 4].copy_from_slice(&0xFFFF_FFF7u32.to_le_bytes());
    let layout = layout_of(&img);
    assert_eq!(layout.cluster_offset(2), DATA_START as u64);
    assert_eq!(layout.cluster_offset(5), cluster_at(5) as u64);
    let mut r = MemReader { data: img };
    assert_eq!(layout.fat_entry(&mut r, 5), 6);
    assert_eq!(layout.fat_entry(&mut r, 2), 0x0FFF_FFFF);
    assert_eq!(layout.fat_entry(&mut r, 4), 0);
    assert_eq!(layout.fat_entry(&mut r, 9), 0x0FFF_FFF7);
    let mut short = MemReader { data: vec![0u8; 100] };
    assert_eq!(layout.fat_entry(&mut short, 5), 0x0FFF_FFFF);
}

#[test]
fn a_fat_entry_keeps_its_low_28_bits() {
    assert_eq!(fat_entry_value(&[0x78, 0x56, 0x34, 0xF2]), 0x0234_5678);
    assert_eq!(fat_entry_value(&[0xFF, 0xFF, 0xFF, 0xFF, 0x00]), 0x0FFF_FFFF);
    assert_eq!(fat_entry_value(&[0x03, 0x00, 0x00, 0x00]), 3);
}

#[test]
fn a_memory_reader_reads_inside_and_refuses_past_the_end() {
    let mut r = MemoryReader::new(vec![1, 2, 3, 4]);
    assert_eq!(r.read_range(1, 2).unwrap(), vec![2, 3]);
    assert_eq!(r.read_range(0, 4).unwrap(), vec![1, 2, 3, 4]);
    assert!(r.read_range(3, 2).is_err());
    assert!(r.read_range(5, 0).is_err());
    assert_eq!(r.get_size().unwrap(), 4);
}

#[test]
fn a_whole_tree_scan_over_a_memory_image_finds_every_deleted_file() {
    let img = volume();
    let layout = layout_of(&img);
    let mut r = MemoryReader::new(img.clone());
    let root: Vec<_> = scan_root_directory_for_deleted(&mut r, &layout).iter().map(view).collect();
    assert_eq!(root.len(), 2);
    assert_eq!(root[0].2, 5);
    let mut r = MemoryReader::new(img);
    let tree: Vec<_> = scan_deleted_recursive(&mut r, &layout).iter().map(view).collect();
    assert_eq!(
        tree,
        vec![
            ("a_long_photo_name.jpg".to_string(), "long_filename_reconstructed".to_string(), 5, 1234, true),
            ("?OTES.MD".to_string(), "short_name_placeholder".to_string(), 9, 77, true),
        ]
    );
}

#[test]
fn a_circular_directory_chain_is_walked_once() {
    let mut img = volume();
    img[FAT_START + 4 * 3..FAT_START + 4 * 3 + 4].copy_from_slice(&3u32.to_le_bytes());
    let layout = layout_of(&img);
    let mut r = MemoryReader::new(img);
    let tree: Vec<_> = scan_deleted_recursive(&mut r, &layout).iter().map(view).collect();
    assert_eq!(tree.len(), 2);
    assert_eq!(tree[1].2, 9);
}

#[test]
fn the_resilient_reader_over_a_memory_image_finds_the_same_tree() {
    let img = volume();
    let layout = layout_of(&img);
    let mut r = revenant_core::resilience::ResilientReader::new(MemoryReader::new(img), 3);
    let tree: Vec<_> = scan_deleted_recursive(&mut r, &layout).iter().map(view).collect();
    assert_eq!(
        tree,
        vec![
            ("a_long_photo_name.jpg".to_string(), "long_filename_reconstructed".to_string(), 5, 1234, true),
            ("?OTES.MD".to_string(), "short_name_placeholder".to_string(), 9, 77, true),
        ]
    );
    assert_eq!(r.bad_sector_count(), 0);
}
