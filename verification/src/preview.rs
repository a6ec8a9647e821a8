//! A read-only structural preview of recovered bytes: the kind, MIME type
//! and, where the header gives them, the image dimensions.

use vstd::prelude::*;
use crate::bytes::{be16, be32, eq_at, has_prefix, le16, read_be16, read_be32, read_le16, starts_with};
use crate::text::{owned, str_to_chars};

verus! {

/// What a preview found.
pub struct PreviewResult {
    pub kind: String,
    pub mime: String,
    pub width: Option<u32>,
    pub height: Option<u32>,
    pub readable: bool,
    pub note: String,
}

/// (kind, MIME type, width, height, readable, note).
pub type PreviewView = (Seq<char>, Seq<char>, Option<u32>, Option<u32>, bool, Seq<char>);

impl View for PreviewResult {
    type V = PreviewView;

    open spec fn view(&self) -> PreviewView {
        (self.kind@, self.mime@, self.width, self.height, self.readable, self.note@)
    }
}

/// A start-of-frame marker (baseline, progressive, lossless, arithmetic).
pub open spec fn is_sof(m: u8) -> bool {
    (0xC0 <= m && m <= 0xC3) || (0xC5 <= m && m <= 0xC7) || (0xC9 <= m && m <= 0xCB) || (0xCD <= m && m <= 0xCF)
}

/// Walking JPEG markers from `i`: the (width, height) of the first
/// start-of-frame segment; marker-only markers (SOI, EOI, TEM) are
/// stepped over, other segments skipped by their length; the walk stops
/// within the last ten bytes or at a malformed length.
pub open spec fn jpeg_dim_from(d: Seq<u8>, i: int) -> Option<(u32, u32)>
    decreases d.len() - i,
{
    if i < 0 || i + 9 >= d.len() {
        None
    } else if d[i] != 0xFF {
        jpeg_dim_from(d, i + 1)
    } else {
        let marker = d[i + 1];
        let j = i + 2;
        if marker == 0xD8 || marker == 0xD9 || marker == 0x01 {
            jpeg_dim_from(d, j)
        } else {
            let len = be16(d, j) as int;
            if len < 2 || j + len > d.len() {
                None
            } else if is_sof(marker) && j + 7 <= d.len() {
                Some((be16(d, j + 5) as u32, be16(d, j + 3) as u32))
            } else {
                jpeg_dim_from(d, j + len)
            }
        }
    }
}

pub open spec fn spec_jpeg_dim(d: Seq<u8>) -> Option<(u32, u32)> {
    if d.len() < 4 {
        None
    } else {
        jpeg_dim_from(d, 2)
    }
}

/// The dimensions in a JPEG's first start-of-frame segment.
pub fn jpeg_dim(data: &[u8]) -> (r: Option<(u32, u32)>)
    ensures
        r == spec_jpeg_dim(data@),
{
    if data.len() < 4 {
        return None;
    }
    let mut i: usize = 2;
    while i < data.len() && data.len() - i > 9
        invariant
            2 <= i,
            spec_jpeg_dim(data@) == jpeg_dim_from(data@, i as int),
        decreases data@.len() - i,
    {
        if data[i] != 0xFF {
            i = i + 1;
            continue;
        }
        let marker = data[i + 1];
        i = i + 2;
        if marker == 0xD8 || marker == 0xD9 || marker == 0x01 {
            continue;
        }
        let len = read_be16(data, i) as usize;
        if len < 2 || len > data.len() - i {
            return None;
        }
        let sof = (0xC0 <= marker && marker <= 0xC3) || (0xC5 <= marker && marker <= 0xC7)
            || (0xC9 <= marker && marker <= 0xCB) || (0xCD <= marker && marker <= 0xCF);
        if sof && 7 <= data.len() - i {
            let h = read_be16(data, i + 3) as u32;
            let w = read_be16(data, i + 5) as u32;
            return Some((w, h));
        }
        i = i + len;
    }
    None
}

pub open spec fn after_last_dot(s: Seq<char>) -> Seq<char>
    decreases s.len(),
{
    if s.len() == 0 {
        s
    } else if s.last() == '.' {
        Seq::empty()
    } else {
        after_last_dot(s.drop_last()).push(s.last())
    }
}

pub open spec fn lower_char(c: char) -> char {
    if 'A' <= c && c <= 'Z' {
        ((c as u32) + 32) as char
    } else {
        c
    }
}

/// The extension of a name: the text after its last `.` (the whole name
/// without one), ASCII lower-cased.
pub open spec fn name_ext(name: Seq<char>) -> Seq<char> {
    after_last_dot(name).map_values(|c: char| lower_char(c))
}

fn name_ext_exec(name: &str) -> (r: Vec<char>)
    ensures
        r@ == name_ext(name@),
{
    let s = str_to_chars(name);
    let mut start: usize = 0;
    let mut i: usize = 0;
    while i < s.len()
        invariant
            start <= i <= s@.len(),
            after_last_dot(s@.subrange(0, i as int)) == s@.subrange(start as int, i as int),
        decreases s@.len() - i,
    {
        assert(s@.subrange(0, i + 1).drop_last() =~= s@.subrange(0, i as int));
        if s[i] == '.' {
            start = i + 1;
            assert(s@.subrange(start as int, i + 1) =~= Seq::<char>::empty());
        } else {
            assert(s@.subrange(start as int, i + 1) =~= s@.subrange(start as int, i as int).push(s@[i as int]));
        }
        i = i + 1;
    }
    assert(s@.subrange(0, i as int) =~= s@);
    let mut v: Vec<char> = Vec::new();
    let mut j: usize = start;
    while j < s.len()
        invariant
            start <= j <= s@.len(),
            v@ == s@.subrange(start as int, j as int).map_values(|c: char| lower_char(c)),
        decreases s@.len() - j,
    {
        let c = s[j];
        let l = if 'A' <= c && c <= 'Z' { ((c as u32) + 32) as u8 as char } else { c };
        proof {
            if 'A' <= c && c <= 'Z' {
                assert((((c as u32) + 32) as u8) as char == lower_char(c));
            }
        }
        v.push(l);
        j = j + 1;
        assert(v@ =~= s@.subrange(start as int, j as int).map_values(|c: char| lower_char(c)));
    }
    v
}

/// The MIME type guessed from an extension.
pub open spec fn mime_for_ext(ext: Seq<char>) -> Seq<char> {
    if ext == "pdf"@ {
        "application/pdf"@
    } else if ext == "txt"@ {
        "text/plain"@
    } else if ext == "zip"@ {
        "application/zip"@
    } else if ext == "mp3"@ {
        "audio/mpeg"@
    } else if ext == "wav"@ {
        "audio/wav"@
    } else if ext == "mp4"@ {
        "video/mp4"@
    } else if ext == "mov"@ {
        "video/quicktime"@
    } else {
        "application/octet-stream"@
    }
}

/// The kind a MIME type belongs to.
pub open spec fn kind_for_mime(mime: Seq<char>) -> Seq<char> {
    if mime.len() >= 6 && mime.subrange(0, 6) == "image/"@ {
        "image"@
    } else if mime.len() >= 6 && mime.subrange(0, 6) == "video/"@ {
        "video"@
    } else if mime.len() >= 6 && mime.subrange(0, 6) == "audio/"@ {
        "audio"@
    } else {
        "document"@
    }
}

pub open spec fn gif_sig(v: u8) -> Seq<u8> {
    seq![0x47u8, 0x49, 0x46, 0x38, v, 0x61]
}

/// The preview of `data` recovered under `name`: JPEG (with the
/// start-of-frame dimensions), PNG (IHDR dimensions, at least 24 bytes),
/// GIF87a/89a (logical screen size, at least 10 bytes), WebP (RIFF/WEBP,
/// at least 12 bytes) and PDF are recognised by their headers; anything
/// else is typed by its extension and readable when it is not empty.
pub open spec fn spec_inspect(name: Seq<char>, data: Seq<u8>) -> PreviewView {
    if has_prefix(data, seq![0xFFu8, 0xD8, 0xFF]) {
        let dim = spec_jpeg_dim(data);
        ("image"@, "image/jpeg"@, match dim { Some(d) => Some(d.0), None => None },
            match dim { Some(d) => Some(d.1), None => None }, true, "JPEG structure detected"@)
    } else if has_prefix(data, crate::verify::png_signature()) && data.len() >= 24 {
        ("image"@, "image/png"@, Some(be32(data, 16) as u32), Some(be32(data, 20) as u32), true,
            "PNG header/IHDR detected"@)
    } else if data.len() >= 10 && (has_prefix(data, gif_sig(0x37)) || has_prefix(data, gif_sig(0x39))) {
        ("image"@, "image/gif"@, Some(le16(data, 6) as u32), Some(le16(data, 8) as u32), true,
            "GIF header detected"@)
    } else if data.len() >= 12 && has_prefix(data, seq![0x52u8, 0x49, 0x46, 0x46])
        && data.subrange(8, 12) == seq![0x57u8, 0x45, 0x42, 0x50] {
        ("image"@, "image/webp"@, None, None, true, "WebP header detected"@)
    } else if has_prefix(data, seq![0x25u8, 0x50, 0x44, 0x46, 0x2D]) {
        ("document"@, "application/pdf"@, None, None, true, "PDF header detected"@)
    } else {
        let mime = mime_for_ext(name_ext(name));
        (kind_for_mime(mime), mime, None, None, data.len() > 0,
            "Read-only structural preview; original recovered bytes remain unchanged"@)
    }
}

fn chars_eq(a: &Vec<char>, lit: &str) -> (r: bool)
    ensures
        r == (a@ == lit@),
{
    let b = str_to_chars(lit);
    if a.len() != b.len() {
        return false;
    }
    let mut i: usize = 0;
    while i < a.len()
        invariant
            a@.len() == b@.len(),
            b@ == lit@,
            i <= a@.len(),
            forall|j: int| 0 <= j < i ==> a@[j] == b@[j],
        decreases a@.len() - i,
    {
        if a[i] != b[i] {
            return false;
        }
        i = i + 1;
    }
    assert(a@ =~= b@);
    true
}

fn mime_exec(ext: &Vec<char>) -> (r: &'static str)
    ensures
        r@ == mime_for_ext(ext@),
{
    if chars_eq(ext, "pdf") {
        "application/pdf"
    } else if chars_eq(ext, "txt") {
        "text/plain"
    } else if chars_eq(ext, "zip") {
        "application/zip"
    } else if chars_eq(ext, "mp3") {
        "audio/mpeg"
    } else if chars_eq(ext, "wav") {
        "audio/wav"
    } else if chars_eq(ext, "mp4") {
        "video/mp4"
    } else if chars_eq(ext, "mov") {
        "video/quicktime"
    } else {
        "application/octet-stream"
    }
}

fn kind_exec(mime: &str) -> (r: &'static str)
    ensures
        r@ == kind_for_mime(mime@),
{
    let m = str_to_chars(mime);
    let mut head: Vec<char> = Vec::new();
    let mut i: usize = 0;
    while i < 6 && i < m.len()
        invariant
            i <= 6,
            i <= m@.len(),
            head@ == m@.subrange(0, i as int),
        decreases 6 - i,
    {
        head.push(m[i]);
        i = i + 1;
    }
    if m.len() >= 6 && chars_eq(&head, "image/") {
        "image"
    } else if m.len() >= 6 && chars_eq(&head, "video/") {
        "video"
    } else if m.len() >= 6 && chars_eq(&head, "audio/") {
        "audio"
    } else {
        "document"
    }
}

/// Inspects recovered bytes without changing them (see `spec_inspect`).
pub fn inspect(name: &str, data: &[u8]) -> (r: PreviewResult)
    ensures
        r@ == spec_inspect(name@, data@),
{
    if starts_with(data, &[0xFFu8, 0xD8, 0xFF]) {
        let dim = jpeg_dim(data);
        return PreviewResult {
            kind: owned("image"),
            mime: owned("image/jpeg"),
            width: match dim {
                Some(d) => Some(d.0),
                None => None,
            },
            height: match dim {
                Some(d) => Some(d.1),
                None => None,
            },
            readable: true,
            note: owned("JPEG structure detected"),
        };
    }
    if starts_with(data, &[0x89u8, 0x50, 0x4E, 0x47, 0x0D, 0x0A, 0x1A, 0x0A]) && data.len() >= 24 {
        let w = read_be32(data, 16);
        let h = read_be32(data, 20);
        return PreviewResult {
            kind: owned("image"),
            mime: owned("image/png"),
            width: Some(w),
            height: Some(h),
            readable: true,
            note: owned("PNG header/IHDR detected"),
        };
    }
    if data.len() >= 10 && (starts_with(data, &[0x47u8, 0x49, 0x46, 0x38, 0x37, 0x61]) || starts_with(
        data,
        &[0x47u8, 0x49, 0x46, 0x38, 0x39, 0x61],
    )) {
        let w = read_le16(data, 6) as u32;
        let h = read_le16(data, 8) as u32;
        return PreviewResult {
            kind: owned("image"),
            mime: owned("image/gif"),
            width: Some(w),
            height: Some(h),
            readable: true,
            note: owned("GIF header detected"),
        };
    }
    if data.len() >= 12 && starts_with(data, &[0x52u8, 0x49, 0x46, 0x46]) && eq_at(data, 8, &[0x57u8, 0x45, 0x42, 0x50]) {
        return PreviewResult {
            kind: owned("image"),
            mime: owned("image/webp"),
            width: None,
            height: None,
            readable: true,
            note: owned("WebP header detected"),
        };
    }
    if starts_with(data, &[0x25u8, 0x50, 0x44, 0x46, 0x2D]) {
        return PreviewResult {
            kind: owned("document"),
            mime: owned("application/pdf"),
            width: None,
            height: None,
            readable: true,
            note: owned("PDF header detected"),
        };
    }
    let ext = name_ext_exec(name);
    let mime = mime_exec(&ext);
    let kind = kind_exec(mime);
    PreviewResult {
        kind: owned(kind),
        mime: owned(mime),
        width: None,
        height: None,
        readable: data.len() > 0,
        note: owned("Read-only structural preview; original recovered bytes remain unchanged"),
    }
}


/// A GIF87a or GIF89a header of at least ten bytes previews as a GIF image
/// whose width is the u16 at 6 and height the u16 at 8 (logical screen
/// width, then height), whatever the name.
pub proof fn law_gif_preview_reads_width_then_height(name: Seq<char>, data: Seq<u8>)
    requires
        data.len() >= 10,
        data[0] == 0x47 && data[1] == 0x49 && data[2] == 0x46 && data[3] == 0x38
            && (data[4] == 0x37 || data[4] == 0x39) && data[5] == 0x61,
    ensures
        spec_inspect(name, data).1 == "image/gif"@,
        spec_inspect(name, data).2 == Some((data[6] + 256 * data[7]) as u32),
        spec_inspect(name, data).3 == Some((data[8] + 256 * data[9]) as u32),
{
    assert(!has_prefix(data, seq![0xFFu8, 0xD8, 0xFF]));
    assert(!has_prefix(data, crate::verify::png_signature()));
    assert(data.subrange(0, 6) =~= gif_sig(data[4]));
}
} // verus!
