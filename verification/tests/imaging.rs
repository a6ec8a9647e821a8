use revenant_core::digest::{sha256_hex, Sha256Stream};
use revenant_core::imaging::{image_device, ImageMetadata, MemorySink, IMAGE_CHUNK};
use revenant_core::resilience::{FaultInjectingReader, ResilientReader};
use revenant_core::storage::MemoryReader;

fn patterned(len: usize) -> Vec<u8> {
    (0..len).map(|i| (i * 7 + i / 251) as u8).collect()
}

#[test]
fn streamed_hash_equals_one_shot_hash() {
    let mut s = Sha256Stream::new();
    s.update(b"ab");
    s.update(b"");
    s.update(b"c");
    let h = s.finish_hex();
    assert_eq!(h, "ba7816bf8f01cfea414140de5dae2223b00361a396177a9cb410ff61f20015ad");
    assert_eq!(h, sha256_hex(b"abc"));
    assert_eq!(Sha256Stream::new().finish_hex(), sha256_hex(b""));
}

#[test]
fn imaging_a_readable_device_copies_and_hashes_every_byte() {
    let device = patterned(2 * IMAGE_CHUNK as usize + 1000);
    let mut reader = ResilientReader::new(MemoryReader::new(device.clone()), 3);
    let mut sink = MemorySink::new();
    let m: ImageMetadata = image_device(&mut reader, &mut sink, "1.2.3").expect("imaging succeeds");
    assert_eq!(m.source_size, device.len() as u64);
    assert_eq!(m.bytes_imaged, device.len() as u64);
    assert!(m.bad_sectors.is_empty());
    assert_eq!(m.tool_version, "1.2.3");
    assert_eq!(sink.bytes, device);
    assert_eq!(m.sha256_of_image, sha256_hex(&device));
}

#[test]
fn imaging_an_empty_device_hashes_nothing() {
    let mut reader = ResilientReader::new(MemoryReader::new(Vec::new()), 3);
    let mut sink = MemorySink::new();
    let m = image_device(&mut reader, &mut sink, "v").expect("imaging succeeds");
    assert_eq!(m.bytes_imaged, 0);
    assert!(sink.bytes.is_empty());
    assert_eq!(m.sha256_of_image, "e3b0c44298fc1c149afbf4c8996fb92427ae41e4649b934ca495991b7852b855");
}

#[test]
fn imaging_zero_fills_and_records_unreadable_sectors() {
    let device = patterned(8192);
    let faulty = FaultInjectingReader::new(MemoryReader::new(device.clone()), vec![(1024, 1536)]);
    let mut reader = ResilientReader::new(faulty, 2);
    let mut sink = MemorySink::new();
    let m = image_device(&mut reader, &mut sink, "v").expect("imaging succeeds");
    assert_eq!(m.bytes_imaged, 8192);
    assert_eq!(m.bad_sectors.len(), 1);
    assert_eq!(m.bad_sectors[0].offset, 1024);
    assert_eq!(m.bad_sectors[0].length, 512);
    assert_eq!(m.bad_sectors[0].attempts, 2);
    let mut expected = device.clone();
    for b in &mut expected[1024..1536] {
        *b = 0;
    }
    assert_eq!(sink.bytes, expected);
    assert_eq!(m.sha256_of_image, sha256_hex(&expected));
    assert_ne!(m.sha256_of_image, sha256_hex(&device));
}
