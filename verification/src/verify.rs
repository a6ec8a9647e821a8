//! Structural validation of recovered candidates, one rule set per file
//! type. Every check is a named boolean; a type with no rule set reports
//! "unsupported" (`None`) rather than "valid".

use vstd::prelude::*;
use crate::bytes::{
    be16, be32, contains_seq, eq_at, find, first_occurrence, has_prefix, le16, le32, read_be16,
    read_be32, read_le16, read_le32, starts_with,
};
use crate::carve::CarvedFile;
use crate::digest::{hex_lower, sha256, sha256_hex};
use crate::text::{owned, str_eq};

verus! {

/// The outcome of validating one candidate.
pub struct VerificationResult {
    pub sha256: String,
    pub structurally_valid: bool,
    pub checks: Vec<(String, bool)>,
    pub state: String,
}

/// The checks as (name, passed) pairs of plain values.
pub open spec fn checks_view(v: Seq<(String, bool)>) -> Seq<(Seq<char>, bool)> {
    v.map_values(|p: (String, bool)| (p.0@, p.1))
}

/// Every check passed.
pub open spec fn all_pass(c: Seq<(Seq<char>, bool)>) -> bool {
    forall|i: int| 0 <= i < c.len() ==> #[trigger] c[i].1
}

/// At least one check passed.
pub open spec fn any_pass(c: Seq<(Seq<char>, bool)>) -> bool {
    exists|i: int| 0 <= i < c.len() && #[trigger] c[i].1
}

fn check(name: &str, ok: bool) -> (r: (String, bool))
    ensures
        r.0@ == name@,
        r.1 == ok,
{
    (owned(name), ok)
}

// ---------------------------------------------------------------- CRC-32

/// One bit step of the reflected CRC-32 (IEEE 802.3, polynomial 0xEDB88320).
pub open spec fn crc_bit(c: u32) -> u32 {
    if c & 1 == 1 {
        (c >> 1) ^ 0xEDB88320u32
    } else {
        c >> 1
    }
}

/// `n` bit steps.
pub open spec fn crc_bits(c: u32, n: nat) -> u32
    decreases n,
{
    if n == 0 {
        c
    } else {
        crc_bits(crc_bit(c), (n - 1) as nat)
    }
}

/// Folds the bytes of `s` into the running register `c`.
pub open spec fn crc_update(c: u32, s: Seq<u8>) -> u32
    decreases s.len(),
{
    if s.len() == 0 {
        c
    } else {
        crc_update(crc_bits(c ^ (s[0] as u32), 8), s.drop_first())
    }
}

/// Standard CRC-32: register preset to all ones, result complemented.
pub open spec fn crc32_spec(s: Seq<u8>) -> u32 {
    !crc_update(0xFFFF_FFFFu32, s)
}

/// Standard CRC-32 (IEEE 802.3 polynomial) of `data`.
pub fn crc32(data: &[u8]) -> (r: u32)
    ensures
        r == crc32_spec(data@),
{
    let mut crc: u32 = 0xFFFF_FFFF;
    let mut i: usize = 0;
    assert(data@.subrange(0, data@.len() as int) =~= data@);
    while i < data.len()
        invariant
            i <= data@.len(),
            crc_update(0xFFFF_FFFFu32, data@) == crc_update(crc, data@.subrange(i as int, data@.len() as int)),
        decreases data@.len() - i,
    {
        let ghost rest = data@.subrange(i as int, data@.len() as int);
        assert(rest.drop_first() =~= data@.subrange(i + 1, data@.len() as int));
        crc = crc ^ (data[i] as u32);
        let mut k: u32 = 0;
        let ghost start = crc;
        while k < 8
            invariant
                k <= 8,
                crc_bits(start, 8) == crc_bits(crc, (8 - k) as nat),
            decreases 8 - k,
        {
            if crc & 1 == 1 {
                crc = (crc >> 1) ^ 0xEDB88320u32;
            } else {
                crc = crc >> 1;
            }
            k = k + 1;
        }
        i = i + 1;
    }
    assert(data@.subrange(data@.len() as int, data@.len() as int) =~= Seq::<u8>::empty());
    !crc
}

// ------------------------------------------------------------ rule sets

pub open spec fn jpeg_has_sof(b: Seq<u8>) -> bool {
    exists|i: int| 2 <= i && i + 1 < b.len() && #[trigger] b[i] == 0xFF && (b[i + 1] == 0xC0 || b[i + 1] == 0xC2)
}

pub open spec fn spec_verify_jpeg(b: Seq<u8>) -> Seq<(Seq<char>, bool)> {
    seq![
        ("start_of_image_marker"@, b.len() >= 2 && b[0] == 0xFF && b[1] == 0xD8),
        ("end_of_image_marker"@, b.len() >= 2 && b[b.len() - 2] == 0xFF && b[b.len() - 1] == 0xD9),
        ("start_of_frame_present"@, jpeg_has_sof(b)),
    ]
}

fn verify_jpeg(b: &[u8]) -> (r: Vec<(String, bool)>)
    ensures
        checks_view(r@) == spec_verify_jpeg(b@),
{
    let n = b.len();
    let has_soi = n >= 2 && b[0] == 0xFF && b[1] == 0xD8;
    let has_eoi = n >= 2 && b[n - 2] == 0xFF && b[n - 1] == 0xD9;
    let mut has_sof = false;
    let mut i: usize = 2;
    if n >= 2 {
        while i < n - 1
            invariant
                n == b@.len(),
                n >= 2,
                2 <= i,
                has_sof == (exists|j: int| 2 <= j < i && j + 1 < n && #[trigger] b@[j] == 0xFF && (b@[j + 1] == 0xC0 || b@[j + 1] == 0xC2)),
            decreases n - i,
        {
            if b[i] == 0xFF && (b[i + 1] == 0xC0 || b[i + 1] == 0xC2) {
                has_sof = true;
            }
            i = i + 1;
        }
    }
    assert(has_sof == jpeg_has_sof(b@));
    let mut v = Vec::new();
    v.push(check("start_of_image_marker", has_soi));
    v.push(check("end_of_image_marker", has_eoi));
    v.push(check("start_of_frame_present", has_sof));
    assert(checks_view(v@) =~= spec_verify_jpeg(b@));
    v
}

pub open spec fn png_signature() -> Seq<u8> {
    seq![0x89u8, 0x50, 0x4E, 0x47, 0x0D, 0x0A, 0x1A, 0x0A]
}

pub open spec fn png_ihdr_ok(b: Seq<u8>) -> bool {
    b.len() >= 33 && be32(b, 8) == 13 && b.subrange(12, 16) == seq![0x49u8, 0x48, 0x44, 0x52]
}

pub open spec fn spec_verify_png(b: Seq<u8>) -> Seq<(Seq<char>, bool)> {
    seq![
        ("png_signature"@, has_prefix(b, png_signature())),
        ("ihdr_chunk_structure"@, png_ihdr_ok(b)),
        ("ihdr_crc32_valid"@, png_ihdr_ok(b) && crc32_spec(b.subrange(12, 29)) == be32(b, 29)),
    ]
}

fn verify_png(b: &[u8]) -> (r: Vec<(String, bool)>)
    ensures
        checks_view(r@) == spec_verify_png(b@),
{
    let sig_ok = starts_with(b, &[0x89u8, 0x50, 0x4E, 0x47, 0x0D, 0x0A, 0x1A, 0x0A]);
    let mut ihdr_ok = false;
    let mut crc_ok = false;
    if b.len() >= 33 {
        let len = read_be32(b, 8);
        ihdr_ok = len == 13 && eq_at(b, 12, &[0x49u8, 0x48, 0x44, 0x52]);
        if ihdr_ok {
            let stored = read_be32(b, 29);
            let computed = crc32(&b[12..29]);
            crc_ok = computed == stored;
        }
    }
    let mut v = Vec::new();
    v.push(check("png_signature", sig_ok));
    v.push(check("ihdr_chunk_structure", ihdr_ok));
    v.push(check("ihdr_crc32_valid", crc_ok));
    assert(checks_view(v@) =~= spec_verify_png(b@));
    v
}

pub open spec fn spec_verify_pdf(b: Seq<u8>) -> Seq<(Seq<char>, bool)> {
    seq![
        ("pdf_header"@, has_prefix(b, seq![0x25u8, 0x50, 0x44, 0x46, 0x2D])),
        ("eof_marker"@, contains_seq(b, seq![0x25u8, 0x25, 0x45, 0x4F, 0x46])),
        ("xref_table_present"@, contains_seq(b, seq![0x78u8, 0x72, 0x65, 0x66])
            || contains_seq(b, seq![0x2Fu8, 0x58, 0x52, 0x65, 0x66, 0x53, 0x74, 0x6D])),
    ]
}

fn verify_pdf(b: &[u8]) -> (r: Vec<(String, bool)>)
    ensures
        checks_view(r@) == spec_verify_pdf(b@),
{
    let starts_ok = starts_with(b, &[0x25u8, 0x50, 0x44, 0x46, 0x2D]);
    let has_eof = find(b, &[0x25u8, 0x25, 0x45, 0x4F, 0x46]).is_some();
    let has_xref = find(b, &[0x78u8, 0x72, 0x65, 0x66]).is_some()
        || find(b, &[0x2Fu8, 0x58, 0x52, 0x65, 0x66, 0x53, 0x74, 0x6D]).is_some();
    let mut v = Vec::new();
    v.push(check("pdf_header", starts_ok));
    v.push(check("eof_marker", has_eof));
    v.push(check("xref_table_present", has_xref));
    assert(checks_view(v@) =~= spec_verify_pdf(b@));
    v
}

pub open spec fn zip_eocd_sig() -> Seq<u8> { seq![0x50u8, 0x4B, 0x05, 0x06] }
pub open spec fn zip_central_sig() -> Seq<u8> { seq![0x50u8, 0x4B, 0x01, 0x02] }
pub open spec fn zip64_eocd_sig() -> Seq<u8> { seq![0x50u8, 0x4B, 0x06, 0x06] }

pub open spec fn spec_verify_zip(b: Seq<u8>) -> Seq<(Seq<char>, bool)> {
    let local = has_prefix(b, seq![0x50u8, 0x4B, 0x03, 0x04]);
    let eocd = contains_seq(b, zip_eocd_sig());
    let central = contains_seq(b, zip_central_sig());
    let zip64 = first_occurrence(b, zip64_eocd_sig());
    seq![
        ("zip_local_header_signature"@, local),
        ("zip_central_directory"@, central || eocd),
        ("zip_eocd"@, eocd),
        ("zip64_eocd_when_present"@, match zip64 { Some(p) => p + 56 <= b.len(), None => true }),
        ("zip_structure"@, local && (eocd || central)),
    ]
}

fn verify_zip(b: &[u8]) -> (r: Vec<(String, bool)>)
    ensures
        checks_view(r@) == spec_verify_zip(b@),
{
    let local = starts_with(b, &[0x50u8, 0x4B, 0x03, 0x04]);
    let has_eocd = find(b, &[0x50u8, 0x4B, 0x05, 0x06]).is_some();
    let central = find(b, &[0x50u8, 0x4B, 0x01, 0x02]).is_some();
    let zip64 = find(b, &[0x50u8, 0x4B, 0x06, 0x06]);
    let zip64_ok = match zip64 {
        Some(p) => p <= b.len() && b.len() - p >= 56,
        None => true,
    };
    let mut v = Vec::new();
    v.push(check("zip_local_header_signature", local));
    v.push(check("zip_central_directory", central || has_eocd));
    v.push(check("zip_eocd", has_eocd));
    v.push(check("zip64_eocd_when_present", zip64_ok));
    v.push(check("zip_structure", local && (has_eocd || central)));
    assert(checks_view(v@) =~= spec_verify_zip(b@));
    v
}

pub open spec fn spec_verify_gif(b: Seq<u8>) -> Seq<(Seq<char>, bool)> {
    seq![
        ("gif_header"@, has_prefix(b, seq![0x47u8, 0x49, 0x46, 0x38, 0x37, 0x61])
            || has_prefix(b, seq![0x47u8, 0x49, 0x46, 0x38, 0x39, 0x61])),
        ("logical_screen_descriptor"@, b.len() >= 13),
        ("gif_trailer"@, b.len() > 0 && b[b.len() - 1] == 0x3B),
    ]
}

fn verify_gif(b: &[u8]) -> (r: Vec<(String, bool)>)
    ensures
        checks_view(r@) == spec_verify_gif(b@),
{
    let header = starts_with(b, &[0x47u8, 0x49, 0x46, 0x38, 0x37, 0x61])
        || starts_with(b, &[0x47u8, 0x49, 0x46, 0x38, 0x39, 0x61]);
    let trailer = b.len() > 0 && b[b.len() - 1] == 0x3B;
    let logical = b.len() >= 13;
    let mut v = Vec::new();
    v.push(check("gif_header", header));
    v.push(check("logical_screen_descriptor", logical));
    v.push(check("gif_trailer", trailer));
    assert(checks_view(v@) =~= spec_verify_gif(b@));
    v
}

pub open spec fn riff_sig() -> Seq<u8> { seq![0x52u8, 0x49, 0x46, 0x46] }

/// The RIFF size field plus the 8-byte chunk header, when the field exists.
pub open spec fn riff_declared(b: Seq<u8>) -> int {
    if b.len() >= 8 { le32(b, 4) + 8int } else { 0 }
}

pub open spec fn spec_verify_webp(b: Seq<u8>) -> Seq<(Seq<char>, bool)> {
    seq![
        ("webp_riff_header"@, b.len() >= 12 && has_prefix(b, riff_sig())
            && b.subrange(8, 12) == seq![0x57u8, 0x45, 0x42, 0x50]),
        ("webp_declared_size"@, riff_declared(b) >= 12 && riff_declared(b) <= b.len()),
    ]
}

fn riff_declared_size(b: &[u8]) -> (r: u64)
    ensures
        r == riff_declared(b@),
{
    if b.len() >= 8 {
        read_le32(b, 4) as u64 + 8
    } else {
        0
    }
}

fn verify_webp(b: &[u8]) -> (r: Vec<(String, bool)>)
    ensures
        checks_view(r@) == spec_verify_webp(b@),
{
    let riff = b.len() >= 12 && starts_with(b, &[0x52u8, 0x49, 0x46, 0x46]) && eq_at(
        b,
        8,
        &[0x57u8, 0x45, 0x42, 0x50],
    );
    let declared = riff_declared_size(b);
    let size_sane = declared >= 12 && declared <= b.len() as u64;
    let mut v = Vec::new();
    v.push(check("webp_riff_header", riff));
    v.push(check("webp_declared_size", size_sane));
    assert(checks_view(v@) =~= spec_verify_webp(b@));
    v
}

pub open spec fn tiff_le(b: Seq<u8>) -> bool {
    b.len() >= 8 && b[0] == 0x49 && b[1] == 0x49 && le16(b, 2) == 42
}

pub open spec fn tiff_be(b: Seq<u8>) -> bool {
    b.len() >= 8 && b[0] == 0x4D && b[1] == 0x4D && be16(b, 2) == 42
}

pub open spec fn spec_verify_tiff(b: Seq<u8>) -> Seq<(Seq<char>, bool)> {
    seq![
        ("tiff_header"@, tiff_le(b) || tiff_be(b)),
        ("tiff_first_ifd_offset"@, if tiff_le(b) {
            le32(b, 4) < b.len()
        } else if tiff_be(b) {
            be32(b, 4) < b.len()
        } else {
            false
        }),
    ]
}

fn verify_tiff(b: &[u8]) -> (r: Vec<(String, bool)>)
    ensures
        checks_view(r@) == spec_verify_tiff(b@),
{
    let le = b.len() >= 8 && b[0] == 0x49 && b[1] == 0x49 && read_le16(b, 2) == 42;
    let be = b.len() >= 8 && b[0] == 0x4D && b[1] == 0x4D && read_be16(b, 2) == 42;
    let ifd = if le {
        (read_le32(b, 4) as u64) < b.len() as u64
    } else if be {
        (read_be32(b, 4) as u64) < b.len() as u64
    } else {
        false
    };
    let mut v = Vec::new();
    v.push(check("tiff_header", le || be));
    v.push(check("tiff_first_ifd_offset", ifd));
    assert(checks_view(v@) =~= spec_verify_tiff(b@));
    v
}

pub open spec fn spec_verify_riff(b: Seq<u8>) -> Seq<(Seq<char>, bool)> {
    let riff = b.len() >= 12 && has_prefix(b, riff_sig());
    let declared = if riff { riff_declared(b) } else { 0 };
    seq![
        ("riff_header"@, riff),
        ("riff_form_type"@, riff && (b.subrange(8, 12) == seq![0x57u8, 0x41, 0x56, 0x45]
            || b.subrange(8, 12) == seq![0x41u8, 0x56, 0x49, 0x20])),
        ("riff_declared_size"@, declared >= 12 && declared <= b.len()),
    ]
}

fn verify_riff(b: &[u8]) -> (r: Vec<(String, bool)>)
    ensures
        checks_view(r@) == spec_verify_riff(b@),
{
    let riff = b.len() >= 12 && starts_with(b, &[0x52u8, 0x49, 0x46, 0x46]);
    let form = riff && (eq_at(b, 8, &[0x57u8, 0x41, 0x56, 0x45]) || eq_at(
        b,
        8,
        &[0x41u8, 0x56, 0x49, 0x20],
    ));
    let declared = if riff {
        riff_declared_size(b)
    } else {
        0
    };
    let mut v = Vec::new();
    v.push(check("riff_header", riff));
    v.push(check("riff_form_type", form));
    v.push(check("riff_declared_size", declared >= 12 && declared <= b.len() as u64));
    assert(checks_view(v@) =~= spec_verify_riff(b@));
    v
}

pub open spec fn spec_verify_flac(b: Seq<u8>) -> Seq<(Seq<char>, bool)> {
    let header = has_prefix(b, seq![0x66u8, 0x4C, 0x61, 0x43]);
    seq![("flac_signature"@, header), ("flac_metadata_present"@, header && b.len() >= 8)]
}

fn verify_flac(b: &[u8]) -> (r: Vec<(String, bool)>)
    ensures
        checks_view(r@) == spec_verify_flac(b@),
{
    let header = starts_with(b, &[0x66u8, 0x4C, 0x61, 0x43]);
    let mut v = Vec::new();
    v.push(check("flac_signature", header));
    v.push(check("flac_metadata_present", header && b.len() >= 8));
    assert(checks_view(v@) =~= spec_verify_flac(b@));
    v
}

pub open spec fn spec_verify_mp3(b: Seq<u8>) -> Seq<(Seq<char>, bool)> {
    let id3 = b.len() >= 10 && has_prefix(b, seq![0x49u8, 0x44, 0x33]);
    let frame = b.len() >= 2 && b[0] == 0xFF && (b[1] & 0xE0) == 0xE0;
    seq![("mp3_id3_or_frame"@, id3 || frame), ("mp3_frame_sync"@, frame || id3)]
}

fn verify_mp3(b: &[u8]) -> (r: Vec<(String, bool)>)
    ensures
        checks_view(r@) == spec_verify_mp3(b@),
{
    let id3 = b.len() >= 10 && starts_with(b, &[0x49u8, 0x44, 0x33]);
    let frame = b.len() >= 2 && b[0] == 0xFF && (b[1] & 0xE0) == 0xE0;
    let mut v = Vec::new();
    v.push(check("mp3_id3_or_frame", id3 || frame));
    v.push(check("mp3_frame_sync", frame || id3));
    assert(checks_view(v@) =~= spec_verify_mp3(b@));
    v
}

pub open spec fn spec_verify_isobmff(b: Seq<u8>) -> Seq<(Seq<char>, bool)> {
    if b.len() < 12 {
        seq![("isobmff_header"@, false), ("ftyp_box"@, false)]
    } else {
        seq![
            ("isobmff_box_size"@, be32(b, 0) >= 8 && be32(b, 0) <= b.len()),
            ("ftyp_box"@, b.subrange(4, 8) == seq![0x66u8, 0x74, 0x79, 0x70]),
        ]
    }
}

fn verify_isobmff(b: &[u8]) -> (r: Vec<(String, bool)>)
    ensures
        checks_view(r@) == spec_verify_isobmff(b@),
{
    let mut v = Vec::new();
    if b.len() < 12 {
        v.push(check("isobmff_header", false));
        v.push(check("ftyp_box", false));
        assert(checks_view(v@) =~= spec_verify_isobmff(b@));
        return v;
    }
    let size = read_be32(b, 0) as u64;
    let ftyp = eq_at(b, 4, &[0x66u8, 0x74, 0x79, 0x70]);
    let sane = size >= 8 && size <= b.len() as u64;
    v.push(check("isobmff_box_size", sane));
    v.push(check("ftyp_box", ftyp));
    assert(checks_view(v@) =~= spec_verify_isobmff(b@));
    v
}

pub open spec fn spec_verify_7z(b: Seq<u8>) -> Seq<(Seq<char>, bool)> {
    let sig = has_prefix(b, seq![0x37u8, 0x7A, 0xBC, 0xAF, 0x27, 0x1C]);
    seq![("7z_signature"@, sig), ("7z_version_header"@, sig && b.len() >= 8)]
}

fn verify_7z(b: &[u8]) -> (r: Vec<(String, bool)>)
    ensures
        checks_view(r@) == spec_verify_7z(b@),
{
    let sig = starts_with(b, &[0x37u8, 0x7A, 0xBC, 0xAF, 0x27, 0x1C]);
    let mut v = Vec::new();
    v.push(check("7z_signature", sig));
    v.push(check("7z_version_header", sig && b.len() >= 8));
    assert(checks_view(v@) =~= spec_verify_7z(b@));
    v
}

pub open spec fn spec_verify_gzip(b: Seq<u8>) -> Seq<(Seq<char>, bool)> {
    seq![
        ("gzip_signature"@, b.len() >= 10 && b[0] == 0x1F && b[1] == 0x8B && b[2] == 8),
        ("gzip_header"@, b.len() >= 10),
    ]
}

fn verify_gzip(b: &[u8]) -> (r: Vec<(String, bool)>)
    ensures
        checks_view(r@) == spec_verify_gzip(b@),
{
    let sig = b.len() >= 10 && b[0] == 0x1F && b[1] == 0x8B && b[2] == 8;
    let mut v = Vec::new();
    v.push(check("gzip_signature", sig));
    v.push(check("gzip_header", b.len() >= 10));
    assert(checks_view(v@) =~= spec_verify_gzip(b@));
    v
}

pub open spec fn sqlite_magic() -> Seq<u8> {
    seq![0x53u8, 0x51, 0x4C, 0x69, 0x74, 0x65, 0x20, 0x66, 0x6F, 0x72, 0x6D, 0x61, 0x74, 0x20, 0x33, 0x00]
}

pub open spec fn spec_verify_sqlite(b: Seq<u8>) -> Seq<(Seq<char>, bool)> {
    let header = b.len() >= 100 && has_prefix(b, sqlite_magic());
    seq![
        ("sqlite_header"@, header),
        ("sqlite_page_size"@, header && (be16(b, 16) == 1 || be16(b, 16) >= 512)),
    ]
}

fn verify_sqlite(b: &[u8]) -> (r: Vec<(String, bool)>)
    ensures
        checks_view(r@) == spec_verify_sqlite(b@),
{
    let header = b.len() >= 100 && starts_with(
        b,
        &[0x53u8, 0x51, 0x4C, 0x69, 0x74, 0x65, 0x20, 0x66, 0x6F, 0x72, 0x6D, 0x61, 0x74, 0x20, 0x33, 0x00],
    );
    let page_size = if header {
        read_be16(b, 16)
    } else {
        0
    };
    let mut v = Vec::new();
    v.push(check("sqlite_header", header));
    v.push(check("sqlite_page_size", header && (page_size == 1 || page_size >= 512)));
    assert(checks_view(v@) =~= spec_verify_sqlite(b@));
    v
}

pub open spec fn spec_verify_ebml(b: Seq<u8>) -> Seq<(Seq<char>, bool)> {
    seq![
        ("ebml_header"@, has_prefix(b, seq![0x1Au8, 0x45, 0xDF, 0xA3])),
        ("ebml_data_present"@, b.len() > 4),
    ]
}

fn verify_ebml(b: &[u8]) -> (r: Vec<(String, bool)>)
    ensures
        checks_view(r@) == spec_verify_ebml(b@),
{
    let header = starts_with(b, &[0x1Au8, 0x45, 0xDF, 0xA3]);
    let mut v = Vec::new();
    v.push(check("ebml_header", header));
    v.push(check("ebml_data_present", b.len() > 4));
    assert(checks_view(v@) =~= spec_verify_ebml(b@));
    v
}

/// The rule set that applies to a file extension, if any.
pub open spec fn spec_verify_by_ext(ext: Seq<char>, b: Seq<u8>) -> Option<Seq<(Seq<char>, bool)>> {
    if ext == "jpg"@ || ext == "jpeg"@ {
        Some(spec_verify_jpeg(b))
    } else if ext == "png"@ {
        Some(spec_verify_png(b))
    } else if ext == "pdf"@ {
        Some(spec_verify_pdf(b))
    } else if ext == "zip"@ || ext == "docx"@ || ext == "xlsx"@ || ext == "pptx"@ {
        Some(spec_verify_zip(b))
    } else if ext == "gif"@ {
        Some(spec_verify_gif(b))
    } else if ext == "webp"@ {
        Some(spec_verify_webp(b))
    } else if ext == "tif"@ || ext == "tiff"@ {
        Some(spec_verify_tiff(b))
    } else if ext == "wav"@ || ext == "avi"@ {
        Some(spec_verify_riff(b))
    } else if ext == "flac"@ {
        Some(spec_verify_flac(b))
    } else if ext == "mp3"@ {
        Some(spec_verify_mp3(b))
    } else if ext == "mp4"@ || ext == "mov"@ || ext == "m4a"@ || ext == "3gp"@ || ext == "heic"@ {
        Some(spec_verify_isobmff(b))
    } else if ext == "7z"@ {
        Some(spec_verify_7z(b))
    } else if ext == "gz"@ {
        Some(spec_verify_gzip(b))
    } else if ext == "sqlite"@ {
        Some(spec_verify_sqlite(b))
    } else if ext == "mkv"@ {
        Some(spec_verify_ebml(b))
    } else {
        None
    }
}

/// Runs the structural rule set for `ext` over `bytes`; `None` when no rule
/// set exists for the type (to be reported as unsupported, never as valid).
pub fn verify_bytes_by_ext(ext: &str, bytes: &[u8]) -> (r: Option<Vec<(String, bool)>>)
    ensures
        match r {
            Some(c) => spec_verify_by_ext(ext@, bytes@) == Some(checks_view(c@)),
            None => spec_verify_by_ext(ext@, bytes@) is None,
        },
{
    if str_eq(ext, "jpg") || str_eq(ext, "jpeg") {
        Some(verify_jpeg(bytes))
    } else if str_eq(ext, "png") {
        Some(verify_png(bytes))
    } else if str_eq(ext, "pdf") {
        Some(verify_pdf(bytes))
    } else if str_eq(ext, "zip") || str_eq(ext, "docx") || str_eq(ext, "xlsx") || str_eq(ext, "pptx") {
        Some(verify_zip(bytes))
    } else if str_eq(ext, "gif") {
        Some(verify_gif(bytes))
    } else if str_eq(ext, "webp") {
        Some(verify_webp(bytes))
    } else if str_eq(ext, "tif") || str_eq(ext, "tiff") {
        Some(verify_tiff(bytes))
    } else if str_eq(ext, "wav") || str_eq(ext, "avi") {
        Some(verify_riff(bytes))
    } else if str_eq(ext, "flac") {
        Some(verify_flac(bytes))
    } else if str_eq(ext, "mp3") {
        Some(verify_mp3(bytes))
    } else if str_eq(ext, "mp4") || str_eq(ext, "mov") || str_eq(ext, "m4a") || str_eq(ext, "3gp")
        || str_eq(ext, "heic") {
        Some(verify_isobmff(bytes))
    } else if str_eq(ext, "7z") {
        Some(verify_7z(bytes))
    } else if str_eq(ext, "gz") {
        Some(verify_gzip(bytes))
    } else if str_eq(ext, "sqlite") {
        Some(verify_sqlite(bytes))
    } else if str_eq(ext, "mkv") {
        Some(verify_ebml(bytes))
    } else {
        None
    }
}

/// The bytes of a candidate inside `buf`, clipped at the end of `buf`.
pub open spec fn candidate_bytes(buf: Seq<u8>, offset: int, size: int) -> Seq<u8> {
    let end = if offset + size < buf.len() { offset + size } else { buf.len() as int };
    buf.subrange(offset, end)
}

/// The checks run for a candidate: its type's rule set, or, for a type with
/// none, a single non-emptiness check.
pub open spec fn spec_candidate_checks(ext: Seq<char>, b: Seq<u8>) -> Seq<(Seq<char>, bool)> {
    match spec_verify_by_ext(ext, b) {
        Some(c) => c,
        None => seq![("size_nonzero"@, b.len() > 0)],
    }
}

/// The lifecycle state that a set of checks earns; a type with no
/// structural parser is unsupported, never valid.
pub open spec fn spec_verification_state(c: Seq<(Seq<char>, bool)>, complete: bool, supported: bool) -> Seq<char> {
    if !supported {
        "UNSUPPORTED_FORMAT"@
    } else if all_pass(c) && complete {
        "VERIFIED"@
    } else if any_pass(c) {
        "RECOVERABLE"@
    } else {
        "CORRUPTED"@
    }
}

/// Hashes and structurally validates one carved candidate.
pub fn verify(buf: &[u8], file: &CarvedFile) -> (r: VerificationResult)
    requires
        file.offset <= buf@.len(),
        file.offset + file.size <= usize::MAX,
    ensures
        ({
            let b = candidate_bytes(buf@, file.offset as int, file.size as int);
            let c = spec_candidate_checks(file.ext@, b);
            let supported = spec_verify_by_ext(file.ext@, b) is Some;
            &&& r.sha256@ == hex_lower(sha256(b))
            &&& checks_view(r.checks@) == c
            &&& r.structurally_valid == (supported && all_pass(c) && file.complete)
            &&& r.state@ == spec_verification_state(c, file.complete, supported)
        }),
{
    let end = if file.offset + file.size < buf.len() {
        file.offset + file.size
    } else {
        buf.len()
    };
    let bytes = &buf[file.offset..end];
    let sha = sha256_hex(bytes);
    let parsed = verify_bytes_by_ext(file.ext.as_str(), bytes);
    let supported = parsed.is_some();
    let checks = match parsed {
        Some(c) => c,
        None => {
            let mut v = Vec::new();
            v.push(check("size_nonzero", bytes.len() > 0));
            assert(checks_view(v@) =~= seq![("size_nonzero"@, bytes@.len() > 0)]);
            v
        },
    };
    let ghost c = checks_view(checks@);
    let mut all = true;
    let mut any = false;
    let mut i: usize = 0;
    while i < checks.len()
        invariant
            i <= checks@.len(),
            c == checks_view(checks@),
            all == (forall|j: int| 0 <= j < i ==> #[trigger] c[j].1),
            any == (exists|j: int| 0 <= j < i && #[trigger] c[j].1),
        decreases checks@.len() - i,
    {
        let ok = checks[i].1;
        assert(c[i as int].1 == ok);
        all = all && ok;
        any = any || ok;
        i = i + 1;
    }
    let structurally_valid = supported && all && file.complete;
    let state = if !supported {
        owned("UNSUPPORTED_FORMAT")
    } else if structurally_valid {
        owned("VERIFIED")
    } else if any {
        owned("RECOVERABLE")
    } else {
        owned("CORRUPTED")
    };
    VerificationResult { sha256: sha, structurally_valid, checks, state }
}


/// A JPEG is checked for its SOI marker (FF D8 first), its EOI marker
/// (FF D9 last) and a frame marker. The start-of-frame check looks at every
/// position from 2 on: it
/// passes exactly when a baseline (FF C0) or progressive (FF C2) frame
/// marker starts anywhere there, wherever the APPn segments put it. So a
/// complete candidate that begins with SOI, ends with EOI and holds such a
/// marker passes every check and is verified.
pub proof fn law_jpeg_frame_marker_found_anywhere(b: Seq<u8>)
    ensures
        spec_verify_by_ext("jpg"@, b) matches Some(c) && c.len() == 3
            && c[0].1 == (b.len() >= 2 && b[0] == 0xFF && b[1] == 0xD8)
            && c[1].1 == (b.len() >= 2 && b[b.len() - 2] == 0xFF && b[b.len() - 1] == 0xD9)
            && c[2].0 == "start_of_frame_present"@
            && c[2].1 == (exists|i: int| 2 <= i && i + 1 < b.len() && #[trigger] b[i] == 0xFF
                && (b[i + 1] == 0xC0 || b[i + 1] == 0xC2)),
        b.len() >= 2 && b[0] == 0xFF && b[1] == 0xD8 && b[b.len() - 2] == 0xFF && b[b.len() - 1] == 0xD9
            && (exists|i: int| 2 <= i && i + 1 < b.len() && #[trigger] b[i] == 0xFF
                && (b[i + 1] == 0xC0 || b[i + 1] == 0xC2))
            ==> spec_verify_by_ext("jpg"@, b) is Some
                && all_pass(spec_candidate_checks("jpg"@, b))
                && spec_verification_state(spec_candidate_checks("jpg"@, b), true, true) == "VERIFIED"@,
{
    let c = spec_verify_jpeg(b);
    assert(spec_verify_by_ext("jpg"@, b) == Some(c));
    if b.len() >= 2 && b[0] == 0xFF && b[1] == 0xD8 && b[b.len() - 2] == 0xFF && b[b.len() - 1] == 0xD9
        && (exists|i: int| 2 <= i && i + 1 < b.len() && #[trigger] b[i] == 0xFF && (b[i + 1] == 0xC0 || b[i + 1] == 0xC2)) {
        assert(c[0].1 && c[1].1 && c[2].1);
        assert(all_pass(c));
    }
}
} // verus!
