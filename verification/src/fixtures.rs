//! The fixture images the scanners are exercised on: a small volume holding
//! two JPEGs and a PNG in zero padding, and a 16 KiB image that holds only a
//! FAT32 boot sector. Writing them to disk is the application's part.

use vstd::prelude::*;
use crate::bytes::{le16, le32};
use crate::engine::{spec_classify_boot, DetectedFilesystem};
use crate::fat32::{spec_fat32_layout, Fat32Layout};

verus! {

/// `n` zero bytes.
pub open spec fn zeros(n: nat) -> Seq<u8> {
    Seq::new(n, |i: int| 0u8)
}

pub open spec fn jpeg_head() -> Seq<u8> {
    seq![0xFFu8, 0xD8, 0xFF]
}

pub open spec fn jpeg_tail() -> Seq<u8> {
    seq![0xFFu8, 0xD9]
}

pub open spec fn png_head() -> Seq<u8> {
    seq![0x89u8, 0x50, 0x4E, 0x47, 0x0D, 0x0A, 0x1A, 0x0A]
}

pub open spec fn png_tail() -> Seq<u8> {
    seq![0x49u8, 0x45, 0x4E, 0x44, 0xAE, 0x42, 0x60, 0x82]
}

/// The carving volume: a JPEG at 128 (80 bytes of body) padded to 2048, a
/// PNG at 2048 (1400 bytes of body), 2048 zero bytes, a JPEG at 5512 (1000
/// bytes of body), and 4096 zero bytes; 10613 bytes in all.
pub open spec fn spec_test_volume() -> Seq<u8> {
    zeros(128) + jpeg_head() + zeros(80) + jpeg_tail() + zeros(1835)
        + png_head() + zeros(1400) + png_tail() + zeros(2048)
        + jpeg_head() + zeros(1000) + jpeg_tail() + zeros(4096)
}

/// Appends `n` zero bytes.
fn push_zeros(v: &mut Vec<u8>, n: usize)
    ensures
        final(v)@ == old(v)@ + zeros(n as nat),
{
    let mut k: usize = 0;
    while k < n
        invariant
            k <= n,
            v@ == old(v)@ + zeros(k as nat),
        decreases n - k,
    {
        v.push(0u8);
        k = k + 1;
        assert(v@ =~= old(v)@ + zeros(k as nat));
    }
}

/// Appends the bytes of `b`.
fn push_all(v: &mut Vec<u8>, b: &[u8])
    ensures
        final(v)@ == old(v)@ + b@,
{
    let mut k: usize = 0;
    while k < b.len()
        invariant
            k <= b@.len(),
            v@ == old(v)@ + b@.subrange(0, k as int),
        decreases b@.len() - k,
    {
        v.push(b[k]);
        k = k + 1;
        assert(v@ =~= old(v)@ + b@.subrange(0, k as int));
    }
    assert(b@.subrange(0, b@.len() as int) =~= b@);
}

/// The carving fixture volume.
pub fn test_volume_image() -> (r: Vec<u8>)
    ensures
        r@ == spec_test_volume(),
{
    let jh: [u8; 3] = [0xFF, 0xD8, 0xFF];
    let jt: [u8; 2] = [0xFF, 0xD9];
    let ph: [u8; 8] = [0x89, 0x50, 0x4E, 0x47, 0x0D, 0x0A, 0x1A, 0x0A];
    let pt: [u8; 8] = [0x49, 0x45, 0x4E, 0x44, 0xAE, 0x42, 0x60, 0x82];
    assert(jh@ =~= jpeg_head());
    assert(jt@ =~= jpeg_tail());
    assert(ph@ =~= png_head());
    assert(pt@ =~= png_tail());
    let mut v: Vec<u8> = Vec::new();
    push_zeros(&mut v, 128);
    push_all(&mut v, &jh);
    push_zeros(&mut v, 80);
    push_all(&mut v, &jt);
    push_zeros(&mut v, 1835);
    push_all(&mut v, &ph);
    push_zeros(&mut v, 1400);
    push_all(&mut v, &pt);
    push_zeros(&mut v, 2048);
    push_all(&mut v, &jh);
    push_zeros(&mut v, 1000);
    push_all(&mut v, &jt);
    push_zeros(&mut v, 4096);
    assert(v@ =~= spec_test_volume());
    v
}

/// Byte `i` of the FAT32 fixture: a boot sector with 512-byte sectors,
/// one sector per cluster, 32 reserved sectors, two FATs of one sector,
/// 65536 sectors, root directory at cluster 2, the `FAT32   ` type label and
/// the 0x55AA signature; every other byte is zero.
pub open spec fn fat32_fixture_byte(i: int) -> u8 {
    if i == 0 { 0xEB }
    else if i == 1 { 0x58 }
    else if i == 2 { 0x90 }
    else if 3 <= i < 11 { seq![0x4Du8, 0x53, 0x57, 0x49, 0x4E, 0x34, 0x2E, 0x31][i - 3] }
    else if i == 12 { 0x02 }
    else if i == 13 { 1 }
    else if i == 14 { 32 }
    else if i == 16 { 2 }
    else if i == 19 { 0xF8 }
    else if i == 22 { 63 }
    else if i == 24 { 255 }
    else if i == 30 { 1 }
    else if i == 36 { 1 }
    else if i == 44 { 2 }
    else if 82 <= i < 90 { seq![0x46u8, 0x41, 0x54, 0x33, 0x32, 0x20, 0x20, 0x20][i - 82] }
    else if i == 510 { 0x55 }
    else if i == 511 { 0xAA }
    else { 0 }
}

pub open spec fn spec_fat32_test_image() -> Seq<u8> {
    Seq::new(16384, |i: int| fat32_fixture_byte(i))
}

/// The 16 KiB FAT32 fixture image. Its boot sector is recognised as FAT32
/// and parses to the geometry above (the data area starts at 17408, past
/// the end of the image).
pub fn fat32_test_image() -> (r: Vec<u8>)
    ensures
        r@ == spec_fat32_test_image(),
        spec_classify_boot(r@.subrange(0, 512)) == DetectedFilesystem::Fat32,
        spec_fat32_layout(r@) == (Fat32Layout {
            bytes_per_sector: 512,
            sectors_per_cluster: 1,
            reserved_sectors: 32,
            num_fats: 2,
            sectors_per_fat: 1,
            root_cluster: 2,
            fat_start: 16384,
            data_start: 17408,
            cluster_size: 512,
        }),
{
    let mut image: Vec<u8> = Vec::new();
    push_zeros(&mut image, 16384);
    let oem: [u8; 8] = [0x4D, 0x53, 0x57, 0x49, 0x4E, 0x34, 0x2E, 0x31];
    let label: [u8; 8] = [0x46, 0x41, 0x54, 0x33, 0x32, 0x20, 0x20, 0x20];
    image.set(0, 0xEB);
    image.set(1, 0x58);
    image.set(2, 0x90);
    let mut k: usize = 0;
    while k < 8
        invariant
            k <= 8,
            image@.len() == 16384,
            oem@ == seq![0x4Du8, 0x53, 0x57, 0x49, 0x4E, 0x34, 0x2E, 0x31],
            label@ == seq![0x46u8, 0x41, 0x54, 0x33, 0x32, 0x20, 0x20, 0x20],
            forall|i: int| 0 <= i < 16384 ==> #[trigger] image@[i] == if 3 <= i < 3 + k {
                fat32_fixture_byte(i)
            } else if 82 <= i < 82 + k {
                fat32_fixture_byte(i)
            } else if i < 3 {
                fat32_fixture_byte(i)
            } else {
                0u8
            },
        decreases 8 - k,
    {
        image.set(3 + k, oem[k]);
        image.set(82 + k, label[k]);
        k = k + 1;
    }
    image.set(12, 0x02);
    image.set(13, 1);
    image.set(14, 32);
    image.set(16, 2);
    image.set(19, 0xF8);
    image.set(22, 63);
    image.set(24, 255);
    image.set(30, 1);
    image.set(36, 1);
    image.set(44, 2);
    image.set(510, 0x55);
    image.set(511, 0xAA);
    assert(image@ =~= spec_fat32_test_image());
    proof {
        let b = image@;
        assert(b.subrange(0, 512).subrange(82, 90) =~= seq![0x46u8, 0x41, 0x54, 0x33, 0x32, 0x20, 0x20, 0x20]);
        assert(b[11] == 0 && b[12] == 2 && b[13] == 1 && b[14] == 32 && b[15] == 0 && b[16] == 2);
        assert(b[36] == 1 && b[37] == 0 && b[38] == 0 && b[39] == 0);
        assert(b[44] == 2 && b[45] == 0 && b[46] == 0 && b[47] == 0);
        assert(le16(b, 11) == 512 && le16(b, 14) == 32);
        assert(le32(b, 36) == 1 && le32(b, 44) == 2);
    }
    image
}

} // verus!
