//! Signature carving: finding files in raw bytes by their header and footer
//! signatures, either over one buffer or streaming through a reader.

use vstd::prelude::*;
use crate::bytes::{
    be32, be64, eq_at, find, first_occurrence, has_prefix, le32, lemma_first_occurrence_from, read_be32,
    read_be64, read_le32, starts_with,
};
use crate::storage::{reads_whole_device, StorageReader};
use crate::text::{eq_ascii_nocase, eq_ignore_ascii_case_bytes, str_eq};
use vstd::string::StringSliceAdditionalSpecFns;
use crate::verify::{png_signature, zip64_eocd_sig, zip_eocd_sig};
use crate::signatures::{hex_decode_from, hex_text_ok, hex_text_valid, hex_to_bytes, SignatureDef, SignaturePackage};
use vstd::utf8::encode_utf8;

verus! {

/// A signature in the byte form the carver uses.
pub struct Signature {
    pub file_type: String,
    pub ext: String,
    pub header: Vec<u8>,
    pub footer: Option<Vec<u8>>,
    pub max_size: usize,
    pub parser: Option<String>,
    pub container: Option<String>,
    pub fragmentation_strategy: Option<String>,
}

/// A carved candidate: where it starts, how long it is, its type, and
/// whether its end was structurally confirmed (`complete`) or capped.
/// `max_size` and `coverage_cap_percent` carry what the fractional coverage
/// estimate is computed from.
pub struct CarvedFile {
    pub offset: usize,
    pub size: usize,
    pub file_type: String,
    pub ext: String,
    pub complete: bool,
    pub max_size: usize,
    pub coverage_cap_percent: u32,
}

/// (offset, size, file type, extension, complete, max size, coverage cap).
pub type CarvedView = (int, int, Seq<char>, Seq<char>, bool, int, int);

impl View for CarvedFile {
    type V = CarvedView;

    open spec fn view(&self) -> CarvedView {
        (
            self.offset as int,
            self.size as int,
            self.file_type@,
            self.ext@,
            self.complete,
            self.max_size as int,
            self.coverage_cap_percent as int,
        )
    }
}

impl CarvedFile {
    /// A copy with the same contents.
    pub fn copy(&self) -> (r: CarvedFile)
        ensures
            r@ == self@,
    {
        CarvedFile {
            offset: self.offset,
            size: self.size,
            file_type: self.file_type.clone(),
            ext: self.ext.clone(),
            complete: self.complete,
            max_size: self.max_size,
            coverage_cap_percent: self.coverage_cap_percent,
        }
    }
}

pub open spec fn carved_views(v: Seq<CarvedFile>) -> Seq<CarvedView> {
    v.map_values(|c: CarvedFile| c@)
}

/// Taking the first element off a sequence whose views are a suffix of
/// `all` leaves the next suffix.
pub proof fn lemma_views_drop_first(prev: Seq<CarvedFile>, rest: Seq<CarvedFile>, all: Seq<CarvedView>, k: int)
    requires
        prev.len() > 0,
        rest == prev.remove(0),
        0 <= k <= all.len(),
        carved_views(prev) == all.subrange(k, all.len() as int),
    ensures
        k < all.len(),
        prev[0]@ == all[k],
        carved_views(rest) == all.subrange(k + 1, all.len() as int),
{
    assert(carved_views(prev).len() == prev.len());
    assert(carved_views(prev)[0] == prev[0]@);
    assert(carved_views(prev)[0] == all.subrange(k, all.len() as int)[0]);
    assert(rest =~= prev.subrange(1, prev.len() as int));
    assert forall|i: int| 0 <= i < rest.len() implies carved_views(rest)[i] == all.subrange(k + 1, all.len() as int)[i] by {
        assert(carved_views(prev)[i + 1] == prev[i + 1]@);
        assert(carved_views(prev)[i + 1] == all.subrange(k, all.len() as int)[i + 1]);
        assert(rest[i] == prev[i + 1]);
    }
    assert(carved_views(rest) =~= all.subrange(k + 1, all.len() as int));
}

pub open spec fn opt_view(o: Option<Vec<u8>>) -> Option<Seq<u8>> {
    match o {
        Some(v) => Some(v@),
        None => None,
    }
}

/// Every hex text of a package can be decoded.
pub open spec fn package_hex_ok(pkg: SignaturePackage) -> bool {
    forall|i: int| 0 <= i < pkg.signatures@.len() ==> {
        &&& hex_text_ok(encode_utf8((#[trigger] pkg.signatures@[i]).header_hex@))
        &&& (pkg.signatures@[i].footer_hex matches Some(f) ==> hex_text_ok(encode_utf8(f@)))
    }
}

/// The signature a definition describes.
pub open spec fn spec_signature_of(d: SignatureDef, s: Signature) -> bool {
    &&& s.file_type@ == d.file_type@
    &&& s.ext@ == d.ext@
    &&& s.header@ == hex_decode_from(encode_utf8(d.header_hex@), 0)
    &&& opt_view(s.footer) == (match d.footer_hex {
        Some(f) => Some(hex_decode_from(encode_utf8(f@), 0)),
        None => None,
    })
    &&& s.max_size == d.max_size
    &&& s.parser == d.parser
    &&& s.container == d.container
    &&& s.fragmentation_strategy == d.fragmentation_strategy
}

/// Whether every hex text of the package can be decoded.
pub fn package_is_decodable(pkg: &SignaturePackage) -> (r: bool)
    ensures
        r == package_hex_ok(*pkg),
{
    let mut i: usize = 0;
    while i < pkg.signatures.len()
        invariant
            i <= pkg.signatures@.len(),
            forall|j: int| 0 <= j < i ==> {
                &&& hex_text_ok(encode_utf8((#[trigger] pkg.signatures@[j]).header_hex@))
                &&& (pkg.signatures@[j].footer_hex matches Some(f) ==> hex_text_ok(encode_utf8(f@)))
            },
        decreases pkg.signatures@.len() - i,
    {
        let d = &pkg.signatures[i];
        if !hex_text_valid(d.header_hex.as_str()) {
            return false;
        }
        match &d.footer_hex {
            Some(f) => {
                if !hex_text_valid(f.as_str()) {
                    return false;
                }
            },
            None => {},
        }
        i = i + 1;
    }
    true
}

fn clone_opt_string(o: &Option<String>) -> (r: Option<String>)
    ensures
        r == *o,
{
    match o {
        Some(s) => Some(s.clone()),
        None => None,
    }
}

/// Converts a loaded package's hex definitions into carver signatures.
pub fn signatures_from_package(pkg: &SignaturePackage) -> (r: Vec<Signature>)
    requires
        package_hex_ok(*pkg),
    ensures
        r@.len() == pkg.signatures@.len(),
        forall|i: int| 0 <= i < r@.len() ==> spec_signature_of(pkg.signatures@[i], #[trigger] r@[i]),
{
    let mut out: Vec<Signature> = Vec::new();
    let mut i: usize = 0;
    while i < pkg.signatures.len()
        invariant
            package_hex_ok(*pkg),
            i <= pkg.signatures@.len(),
            out@.len() == i,
            forall|j: int| 0 <= j < i ==> spec_signature_of(pkg.signatures@[j], #[trigger] out@[j]),
        decreases pkg.signatures@.len() - i,
    {
        let d = &pkg.signatures[i];
        assert(hex_text_ok(encode_utf8(d.header_hex@)));
        let header = hex_to_bytes(d.header_hex.as_str());
        let footer = match &d.footer_hex {
            Some(f) => Some(hex_to_bytes(f.as_str())),
            None => None,
        };
        out.push(Signature {
            file_type: d.file_type.clone(),
            ext: d.ext.clone(),
            header,
            footer,
            max_size: d.max_size,
            parser: clone_opt_string(&d.parser),
            container: clone_opt_string(&d.container),
            fragmentation_strategy: clone_opt_string(&d.fragmentation_strategy),
        });
        i = i + 1;
    }
    out
}

/// Position of the first occurrence of a non-empty `needle`; an empty
/// needle, or one longer than `hay`, is never found.
pub open spec fn find_sub(hay: Seq<u8>, needle: Seq<u8>) -> Option<int> {
    if needle.len() == 0 {
        None
    } else {
        first_occurrence(hay, needle)
    }
}

/// First occurrence of a non-empty needle (`None` for an empty one).
pub fn find_subsequence(haystack: &[u8], needle: &[u8]) -> (r: Option<usize>)
    ensures
        match r {
            Some(i) => find_sub(haystack@, needle@) == Some(i as int) && i + needle@.len() <= haystack@.len(),
            None => find_sub(haystack@, needle@) is None,
        },
{
    if needle.len() == 0 || haystack.len() < needle.len() {
        if needle.len() > 0 {
            assert(first_occurrence(haystack@, needle@) is None);
        }
        return None;
    }
    find(haystack, needle)
}

pub open spec fn opt_min(a: Option<int>, b: Option<int>) -> Option<int> {
    match (a, b) {
        (Some(x), Some(y)) => Some(if x < y { x } else { y }),
        (Some(x), None) => Some(x),
        (None, y) => y,
    }
}

/// The earliest position in `win` where the header of any signature from
/// index `k` on occurs.
pub open spec fn next_header(win: Seq<u8>, sigs: Seq<Signature>, k: int) -> Option<int>
    decreases sigs.len() - k,
{
    if k < 0 || k >= sigs.len() {
        None
    } else {
        opt_min(find_sub(win, sigs[k].header@), next_header(win, sigs, k + 1))
    }
}

/// The first signature, from index `k` on, whose header starts at `pos`.
pub open spec fn first_match(buf: Seq<u8>, sigs: Seq<Signature>, pos: int, k: int) -> Option<int>
    decreases sigs.len() - k,
{
    if k < 0 || k >= sigs.len() {
        None
    } else if has_prefix(buf.subrange(pos, buf.len() as int), sigs[k].header@) {
        Some(k)
    } else {
        first_match(buf, sigs, pos, k + 1)
    }
}

pub open spec fn min_int(a: int, b: int) -> int {
    if a < b { a } else { b }
}

/// Where the candidate of signature `sig` found at `pos` ends, and whether
/// the end is structural: the search runs from the end of the header up to
/// the size cap, and stops early at the next header of any signature; a
/// footer inside that window closes the file; without a footer type the
/// candidate is capped 64 KiB past its header.
pub open spec fn spec_candidate_end(buf: Seq<u8>, sigs: Seq<Signature>, sig: Signature, pos: int) -> (int, bool) {
    let ss = pos + sig.header@.len();
    let hc = min_int(pos + sig.max_size, buf.len() as int);
    let cap_end = match next_header(buf.subrange(ss, hc), sigs, 0) {
        Some(r) => ss + r,
        None => hc,
    };
    match sig.footer {
        Some(f) => match find_sub(buf.subrange(ss, cap_end), f@) {
            Some(r) => (ss + r + f@.len(), true),
            None => (cap_end, false),
        },
        None => (min_int(cap_end, ss + 65536), false),
    }
}

/// Single-pass carving from `pos`: at each position the first signature
/// whose header starts there yields a candidate and scanning resumes at its
/// end (at least one byte further); otherwise scanning moves on one byte.
pub open spec fn carve_from(buf: Seq<u8>, sigs: Seq<Signature>, pos: int) -> Seq<CarvedView>
    decreases buf.len() - pos,
{
    if pos < 0 || pos >= buf.len() {
        Seq::empty()
    } else {
        match first_match(buf, sigs, pos, 0) {
            None => carve_from(buf, sigs, pos + 1),
            Some(j) => {
                let sig = sigs[j];
                let (end, complete) = spec_candidate_end(buf, sigs, sig, pos);
                let next = if end > pos + 1 { end } else { pos + 1 };
                seq![(pos, end - pos, sig.file_type@, sig.ext@, complete, sig.max_size as int, 95)]
                    + carve_from(buf, sigs, min_int(next, buf.len() as int))
            },
        }
    }
}

/// Where single-pass carving can run from `pos`: every signature it finds
/// has a header no longer than its size cap, and a cap that stays inside
/// the address space (`pos + max_size` fits in `usize`).
pub open spec fn carvable_from(buf: Seq<u8>, sigs: Seq<Signature>, pos: int) -> bool
    decreases buf.len() - pos,
{
    if pos < 0 || pos >= buf.len() {
        true
    } else {
        match first_match(buf, sigs, pos, 0) {
            None => carvable_from(buf, sigs, pos + 1),
            Some(j) => {
                let sig = sigs[j];
                if sig.header@.len() <= sig.max_size && pos + sig.max_size <= usize::MAX {
                    let (end, complete) = spec_candidate_end(buf, sigs, sig, pos);
                    let next = if end > pos + 1 { end } else { pos + 1 };
                    carvable_from(buf, sigs, min_int(next, buf.len() as int))
                } else {
                    false
                }
            },
        }
    }
}

fn first_match_exec(buf: &[u8], sigs: &[Signature], pos: usize) -> (r: Option<usize>)
    requires
        pos <= buf@.len(),
    ensures
        match r {
            Some(j) => {
                &&& first_match(buf@, sigs@, pos as int, 0) == Some(j as int)
                &&& j < sigs@.len()
                &&& has_prefix(buf@.subrange(pos as int, buf@.len() as int), sigs@[j as int].header@)
            },
            None => first_match(buf@, sigs@, pos as int, 0) is None,
        },
{
    let rest = &buf[pos..buf.len()];
    let mut k: usize = 0;
    while k < sigs.len()
        invariant
            k <= sigs@.len(),
            rest@ == buf@.subrange(pos as int, buf@.len() as int),
            first_match(buf@, sigs@, pos as int, 0) == first_match(buf@, sigs@, pos as int, k as int),
        decreases sigs@.len() - k,
    {
        if starts_with(rest, sigs[k].header.as_slice()) {
            return Some(k);
        }
        k = k + 1;
    }
    None
}

fn next_header_exec(win: &[u8], sigs: &[Signature]) -> (r: Option<usize>)
    ensures
        match r {
            Some(x) => next_header(win@, sigs@, 0) == Some(x as int) && x <= win@.len(),
            None => next_header(win@, sigs@, 0) is None,
        },
{
    let mut k: usize = sigs.len();
    let mut best: Option<usize> = None;
    while k > 0
        invariant
            k <= sigs@.len(),
            match best {
                Some(x) => next_header(win@, sigs@, k as int) == Some(x as int) && x <= win@.len(),
                None => next_header(win@, sigs@, k as int) is None,
            },
        decreases k,
    {
        let f = find_subsequence(win, sigs[k - 1].header.as_slice());
        best = match (f, best) {
            (Some(x), Some(y)) => Some(if x < y { x } else { y }),
            (Some(x), None) => Some(x),
            (None, y) => y,
        };
        k = k - 1;
    }
    best
}

fn candidate_end(buf: &[u8], sigs: &[Signature], j: usize, pos: usize) -> (r: (usize, bool))
    requires
        j < sigs@.len(),
        sigs@[j as int].header@.len() <= sigs@[j as int].max_size,
        pos < buf@.len(),
        has_prefix(buf@.subrange(pos as int, buf@.len() as int), sigs@[j as int].header@),
    ensures
        r.0 == spec_candidate_end(buf@, sigs@, sigs@[j as int], pos as int).0,
        r.1 == spec_candidate_end(buf@, sigs@, sigs@[j as int], pos as int).1,
        pos < r.0 <= buf@.len() || (r.0 == pos && sigs@[j as int].header@.len() == 0),
        pos <= r.0 <= buf@.len(),
{
    let sig = &sigs[j];
    let blen = buf.len();
    assert(buf@.subrange(pos as int, blen as int).len() == blen - pos);
    let ss = pos + sig.header.len();
    let hc = if sig.max_size < blen - pos { pos + sig.max_size } else { blen };
    assert(ss <= hc);
    let cap_end = match next_header_exec(&buf[ss..hc], sigs) {
        Some(r) => ss + r,
        None => hc,
    };
    match &sig.footer {
        Some(f) => match find_subsequence(&buf[ss..cap_end], f.as_slice()) {
            Some(r) => (ss + r + f.len(), true),
            None => (cap_end, false),
        },
        None => {
            let e = if cap_end - ss < 65536 { cap_end } else { ss + 65536 };
            (e, false)
        },
    }
}

/// Scans a raw byte buffer for every signature (see `carve_from`).
pub fn carve(buf: &[u8], sigs: &[Signature]) -> (r: Vec<CarvedFile>)
    requires
        carvable_from(buf@, sigs@, 0),
    ensures
        carved_views(r@) == carve_from(buf@, sigs@, 0),
{
    let mut results: Vec<CarvedFile> = Vec::new();
    let mut pos: usize = 0;
    while pos < buf.len()
        invariant
            carvable_from(buf@, sigs@, pos as int),
            pos <= buf@.len(),
            carved_views(results@) + carve_from(buf@, sigs@, pos as int) == carve_from(buf@, sigs@, 0),
        decreases buf@.len() - pos,
    {
        let ghost before = carved_views(results@);
        match first_match_exec(buf, sigs, pos) {
            None => {
                pos = pos + 1;
            },
            Some(j) => {
                proof {
                    assert(has_prefix(buf@.subrange(pos as int, buf@.len() as int), sigs@[j as int].header@));
                }
                let (end, complete) = candidate_end(buf, sigs, j, pos);
                let sig = &sigs[j];
                results.push(CarvedFile {
                    offset: pos,
                    size: end - pos,
                    file_type: sig.file_type.clone(),
                    ext: sig.ext.clone(),
                    complete,
                    max_size: sig.max_size,
                    coverage_cap_percent: 95,
                });
                let next = if end > pos + 1 { end } else { pos + 1 };
                assert(carved_views(results@) + carve_from(buf@, sigs@, next as int) =~= before + carve_from(buf@, sigs@, pos as int));
                pos = next;
            },
        }
    }
    assert(carve_from(buf@, sigs@, pos as int) =~= Seq::<CarvedView>::empty());
    results
}


/// The format parsers that can tell, from a file's first bytes, where it
/// ends.
#[derive(Clone, Copy, PartialEq, Eq, Structural, Debug)]
pub enum ParserKind {
    Png,
    Zip,
    Riff,
    IsoBmff,
    Jpeg,
    Pdf,
}

/// The parser a parser name selects.
pub open spec fn spec_parser_kind(p: Seq<char>) -> Option<ParserKind> {
    if p == "riff"@ {
        Some(ParserKind::Riff)
    } else if p == "iso-bmff"@ {
        Some(ParserKind::IsoBmff)
    } else if p == "zip"@ {
        Some(ParserKind::Zip)
    } else if p == "png"@ {
        Some(ParserKind::Png)
    } else if p == "jpeg"@ {
        Some(ParserKind::Jpeg)
    } else if p == "pdf"@ {
        Some(ParserKind::Pdf)
    } else {
        None
    }
}

fn parser_kind(p: &str) -> (r: Option<ParserKind>)
    ensures
        r == spec_parser_kind(p@),
{
    if str_eq(p, "riff") {
        Some(ParserKind::Riff)
    } else if str_eq(p, "iso-bmff") {
        Some(ParserKind::IsoBmff)
    } else if str_eq(p, "zip") {
        Some(ParserKind::Zip)
    } else if str_eq(p, "png") {
        Some(ParserKind::Png)
    } else if str_eq(p, "jpeg") {
        Some(ParserKind::Jpeg)
    } else if str_eq(p, "pdf") {
        Some(ParserKind::Pdf)
    } else {
        None
    }
}

/// The parser name used for an extension, if any.
pub open spec fn spec_parser_for_ext(ext: Seq<char>) -> Option<Seq<char>> {
    if ext == "png"@ {
        Some("png"@)
    } else if ext == "zip"@ {
        Some("zip"@)
    } else if ext == "webp"@ || ext == "wav"@ || ext == "avi"@ {
        Some("riff"@)
    } else if ext == "mp4"@ || ext == "mov"@ || ext == "m4a"@ || ext == "3gp"@ || ext == "heic"@ {
        Some("iso-bmff"@)
    } else if ext == "jpeg"@ || ext == "jpg"@ {
        Some("jpeg"@)
    } else if ext == "pdf"@ {
        Some("pdf"@)
    } else {
        None
    }
}

pub open spec fn opt_str_view(o: Option<String>) -> Option<Seq<char>> {
    match o {
        Some(s) => Some(s@),
        None => None,
    }
}

fn parser_for_ext(ext: &str) -> (r: Option<String>)
    ensures
        opt_str_view(r) == spec_parser_for_ext(ext@),
{
    if str_eq(ext, "png") {
        Some(crate::text::owned("png"))
    } else if str_eq(ext, "zip") {
        Some(crate::text::owned("zip"))
    } else if str_eq(ext, "webp") || str_eq(ext, "wav") || str_eq(ext, "avi") {
        Some(crate::text::owned("riff"))
    } else if str_eq(ext, "mp4") || str_eq(ext, "mov") || str_eq(ext, "m4a") || str_eq(ext, "3gp")
        || str_eq(ext, "heic") {
        Some(crate::text::owned("iso-bmff"))
    } else if str_eq(ext, "jpeg") || str_eq(ext, "jpg") {
        Some(crate::text::owned("jpeg"))
    } else if str_eq(ext, "pdf") {
        Some(crate::text::owned("pdf"))
    } else {
        None
    }
}

pub open spec fn iend_tag() -> Seq<u8> {
    seq![0x49u8, 0x45, 0x4E, 0x44]
}

pub open spec fn jpeg_eoi() -> Seq<u8> {
    seq![0xFFu8, 0xD9]
}

pub open spec fn pdf_eof() -> Seq<u8> {
    seq![0x25u8, 0x25, 0x45, 0x4F, 0x46]
}

/// Walking PNG chunks (length, type, data, CRC) from `p`: the end of the
/// IEND chunk, if every chunk up to it lies inside `d`.
pub open spec fn png_end_from(d: Seq<u8>, p: int) -> Option<int>
    decreases d.len() - p,
{
    if p < 0 || p + 12 > d.len() {
        None
    } else {
        let n = be32(d, p) as int;
        if p + 12 + n > d.len() {
            None
        } else if d.subrange(p + 4, p + 8) == iend_tag() {
            Some(p + 12 + n)
        } else {
            png_end_from(d, p + 12 + n)
        }
    }
}

pub open spec fn usize_sat(x: int) -> int {
    if x > usize::MAX {
        usize::MAX as int
    } else {
        x
    }
}

pub open spec fn found_plus(o: Option<int>, k: int, len: int) -> Option<int> {
    match o {
        Some(p) => if p + k <= len { Some(p + k) } else { None },
        None => None,
    }
}

/// Where a file of this format ends, judged from its first bytes `d`:
/// the RIFF size field plus eight; the ISO-BMFF first box size (64-bit when
/// the 32-bit field is one); the end of a ZIP end-of-central-directory
/// record (22 bytes, or 56 for ZIP64); the end of the PNG IEND chunk; the
/// end of the first JPEG EOI marker or PDF `%%EOF`.
pub open spec fn spec_known_end(kind: ParserKind, d: Seq<u8>) -> Option<int> {
    match kind {
        ParserKind::Riff => if d.len() >= 8 {
            Some(usize_sat(le32(d, 4) as int + 8))
        } else {
            None
        },
        ParserKind::IsoBmff => if d.len() >= 8 {
            let n = be32(d, 0);
            if n == 1 {
                if d.len() >= 16 {
                    Some((be64(d, 8) as usize) as int)
                } else {
                    None
                }
            } else if n >= 8 {
                Some(n as int)
            } else {
                None
            }
        } else {
            None
        },
        ParserKind::Zip => match found_plus(first_occurrence(d, zip_eocd_sig()), 22, d.len() as int) {
            Some(e) => Some(e),
            None => found_plus(first_occurrence(d, zip64_eocd_sig()), 56, d.len() as int),
        },
        ParserKind::Png => if d.len() < 8 || d.subrange(0, 8) != png_signature() {
            None
        } else {
            png_end_from(d, 8)
        },
        ParserKind::Jpeg => match first_occurrence(d, jpeg_eoi()) {
            Some(p) => Some(p + 2),
            None => None,
        },
        ParserKind::Pdf => match first_occurrence(d, pdf_eof()) {
            Some(p) => Some(p + 5),
            None => None,
        },
    }
}

pub open spec fn opt_usize_view(o: Option<usize>) -> Option<int> {
    match o {
        Some(x) => Some(x as int),
        None => None,
    }
}

fn png_known_end(data: &[u8]) -> (r: Option<usize>)
    ensures
        opt_usize_view(r) == spec_known_end(ParserKind::Png, data@),
{
    if data.len() < 8 || !eq_at(data, 0, &[0x89u8, 0x50, 0x4E, 0x47, 0x0D, 0x0A, 0x1A, 0x0A]) {
        proof {
            if data@.len() >= 8 {
                assert(data@.subrange(0, 8) != png_signature());
            }
        }
        return None;
    }
    assert(data@.subrange(0, 8) =~= png_signature());
    let mut p: usize = 8;
    while p <= data.len() && data.len() - p >= 12
        invariant
            8 <= p <= data@.len(),
            spec_known_end(ParserKind::Png, data@) == png_end_from(data@, p as int),
        decreases data@.len() - p,
    {
        let n = read_be32(data, p) as usize;
        if n > data.len() - p - 12 {
            return None;
        }
        let typ = eq_at(data, p + 4, &[0x49u8, 0x45, 0x4E, 0x44]);
        proof {
            assert(typ == (data@.subrange(p + 4, p + 8) == iend_tag()));
        }
        p = p + 12 + n;
        if typ {
            return Some(p);
        }
    }
    None
}

fn found_plus_exec(o: Option<usize>, k: usize, len: usize) -> (r: Option<usize>)
    requires
        o matches Some(p) ==> p <= len,
    ensures
        opt_usize_view(r) == found_plus(opt_usize_view(o), k as int, len as int),
{
    match o {
        Some(p) => if k <= len - p { Some(p + k) } else { None },
        None => None,
    }
}

fn known_end(kind: ParserKind, data: &[u8]) -> (r: Option<usize>)
    ensures
        opt_usize_view(r) == spec_known_end(kind, data@),
{
    match kind {
        ParserKind::Riff => {
            if data.len() >= 8 {
                let v = read_le32(data, 4) as usize;
                Some(v.saturating_add(8))
            } else {
                None
            }
        },
        ParserKind::IsoBmff => {
            if data.len() >= 8 {
                let n = read_be32(data, 0);
                if n == 1 {
                    if data.len() >= 16 {
                        Some(read_be64(data, 8) as usize)
                    } else {
                        None
                    }
                } else if n >= 8 {
                    Some(n as usize)
                } else {
                    None
                }
            } else {
                None
            }
        },
        ParserKind::Zip => {
            let a = found_plus_exec(find(data, &[0x50u8, 0x4B, 0x05, 0x06]), 22, data.len());
            match a {
                Some(e) => Some(e),
                None => found_plus_exec(find(data, &[0x50u8, 0x4B, 0x06, 0x06]), 56, data.len()),
            }
        },
        ParserKind::Png => png_known_end(data),
        ParserKind::Jpeg => {
            let eoi: &[u8] = &[0xFFu8, 0xD9];
            assert(eoi@ =~= jpeg_eoi());
            let dl = data.len();
            match find(data, eoi) {
                Some(p) => Some(p + 2),
                None => None,
            }
        },
        ParserKind::Pdf => {
            let eof: &[u8] = &[0x25u8, 0x25, 0x45, 0x4F, 0x46];
            assert(eof@ =~= pdf_eof());
            let dl = data.len();
            match find(data, eof) {
                Some(p) => Some(p + 5),
                None => None,
            }
        },
    }
}

/// Where a file handled by `parser` ends, judged from its first bytes.
pub fn parser_known_end(parser: &str, data: &[u8]) -> (r: Option<usize>)
    ensures
        match spec_parser_kind(parser@) {
            Some(k) => opt_usize_view(r) == spec_known_end(k, data@),
            None => r is None,
        },
{
    match parser_kind(parser) {
        Some(k) => known_end(k, data),
        None => None,
    }
}


/// A candidate followed while streaming: the signature that opened it,
/// where it starts, where its size cap ends, its footer and parser, the
/// last bytes seen (to match the footer) and its first bytes (for the
/// parser).
pub struct StreamingCandidate {
    pub signature_index: usize,
    pub start: u64,
    pub max_end: u64,
    pub footer: Option<Vec<u8>>,
    pub parser: Option<String>,
    pub tail: Vec<u8>,
    pub prefix: Vec<u8>,
}

/// The streaming carver's state between bytes.
pub struct StreamingCarverState {
    pub active_candidates: Vec<StreamingCandidate>,
    pub candidate_start: Option<u64>,
    pub candidate_end: Option<u64>,
    pub signature_state: String,
    pub footer_state: String,
    pub format_parser_state: String,
}

impl StreamingCarverState {
    /// No live candidate and nothing recorded.
    pub open spec fn is_clear(&self) -> bool {
        &&& self.active_candidates@.len() == 0
        &&& self.candidate_start is None
        &&& self.candidate_end is None
        &&& self.signature_state@.len() == 0
        &&& self.footer_state@.len() == 0
        &&& self.format_parser_state@.len() == 0
    }

    /// A state with no candidate and nothing recorded.
    pub fn new() -> (r: Self)
        ensures
            r.is_clear(),
    {
        StreamingCarverState {
            active_candidates: Vec::new(),
            candidate_start: None,
            candidate_end: None,
            signature_state: String::new(),
            footer_state: String::new(),
            format_parser_state: String::new(),
        }
    }

    /// Drops every live candidate and clears the recorded state.
    pub fn reset(&mut self)
        ensures
            final(self).is_clear(),
    {
        self.active_candidates.clear();
        self.candidate_start = None;
        self.candidate_end = None;
        self.signature_state = String::new();
        self.footer_state = String::new();
        self.format_parser_state = String::new();
    }
}

impl Default for StreamingCarverState {
    fn default() -> (r: Self)
        ensures
            r.is_clear(),
    {
        StreamingCarverState::new()
    }
}

/// The candidate's first bytes after one more byte at distance `rel` from
/// its start: grown while shorter than 128 bytes.
pub open spec fn prefix_after(prefix: Seq<u8>, rel: int, byte: u8) -> Seq<u8> {
    if rel > prefix.len() && prefix.len() < 128 {
        prefix.push(byte)
    } else {
        prefix
    }
}

/// The last `n` elements of `s` (all of it when shorter).
pub open spec fn keep_last(s: Seq<u8>, n: int) -> Seq<u8> {
    if s.len() > n {
        s.subrange(s.len() - n, s.len() as int)
    } else {
        s
    }
}

/// A live candidate as a value: (signature index, start, size-cap end,
/// footer, parser, footer window, first bytes).
pub type CandView = (int, int, int, Option<Seq<u8>>, Option<Seq<char>>, Seq<u8>, Seq<u8>);

pub open spec fn cand_view(c: StreamingCandidate) -> CandView {
    (c.signature_index as int, c.start as int, c.max_end as int, opt_view(c.footer), opt_str_view(c.parser), c.tail@, c.prefix@)
}

pub open spec fn cand_views(v: Seq<StreamingCandidate>) -> Seq<CandView> {
    v.map_values(|c: StreamingCandidate| cand_view(c))
}

/// The end a candidate's parser reports on its first bytes `prefix`.
pub open spec fn parser_end(parser: Option<Seq<char>>, prefix: Seq<u8>) -> Option<int> {
    match parser {
        Some(p) => match spec_parser_kind(p) {
            Some(k) => spec_known_end(k, prefix),
            None => None,
        },
        None => None,
    }
}

/// What one more byte at absolute position `abs` does to a live candidate
/// (`start <= abs`): the candidate with its new first bytes and footer
/// window, and whether it ends, with its size and whether that end is
/// structural. The parser's end, once reached, closes it first; then a
/// footer just completed; then the size cap.
pub open spec fn spec_advance(c: CandView, abs: int, byte: u8) -> (CandView, Option<(int, bool)>) {
    let rel = abs + 1 - c.1;
    let np = prefix_after(c.6, rel, byte);
    let room = if c.2 >= c.1 { c.2 - c.1 } else { 0 };
    let capped = if abs + 1 >= c.2 { Some((if rel < room { rel } else { room }, false)) } else { None };
    match parser_end(c.4, np) {
        Some(e) if rel >= e => ((c.0, c.1, c.2, c.3, c.4, c.5, np), Some((e, true))),
        _ => match c.3 {
            Some(f) => {
                let nt = keep_last(c.5.push(byte), f.len() as int);
                ((c.0, c.1, c.2, c.3, c.4, nt, np), if nt == f { Some((rel, true)) } else { capped })
            },
            None => ((c.0, c.1, c.2, c.3, c.4, c.5, np), capped),
        },
    }
}

fn keep_last_exec(v: Vec<u8>, n: usize) -> (r: Vec<u8>)
    ensures
        r@ == keep_last(v@, n as int),
{
    if v.len() > n {
        let d = v.len() - n;
        vstd::slice::slice_to_vec(&v.as_slice()[d..v.len()])
    } else {
        v
    }
}

/// Feeds one byte at absolute position `abs` to a live candidate.
fn advance(c: &mut StreamingCandidate, abs: u64, byte: u8) -> (r: Option<(u64, bool)>)
    requires
        old(c).start <= abs < u64::MAX,
    ensures
        final(c).signature_index == old(c).signature_index,
        final(c).start == old(c).start,
        final(c).max_end == old(c).max_end,
        final(c).footer == old(c).footer,
        final(c).parser == old(c).parser,
        cand_view(*final(c)) == spec_advance(cand_view(*old(c)), abs as int, byte).0,
        match r {
            Some((size, complete)) => spec_advance(cand_view(*old(c)), abs as int, byte).1 == Some((size as int, complete)),
            None => spec_advance(cand_view(*old(c)), abs as int, byte).1 is None,
        },
{
    let rel = abs + 1 - c.start;
    if rel > c.prefix.len() as u64 && c.prefix.len() < 128 {
        c.prefix.push(byte);
    }
    let pe = match &c.parser {
        Some(p) => parser_known_end(p.as_str(), c.prefix.as_slice()),
        None => None,
    };
    match pe {
        Some(e) => {
            if rel >= e as u64 {
                return Some((e as u64, true));
            }
        },
        None => {},
    }
    match &c.footer {
        Some(f) => {
            let mut t: Vec<u8> = Vec::new();
            std::mem::swap(&mut t, &mut c.tail);
            t.push(byte);
            let t = keep_last_exec(t, f.len());
            let hit = t.len() == f.len() && eq_at(t.as_slice(), 0, f.as_slice());
            proof {
                if t@.len() == f@.len() {
                    assert(t@.subrange(0, f@.len() as int) =~= t@);
                }
            }
            c.tail = t;
            if hit {
                return Some((rel, true));
            }
        },
        None => {},
    }
    if abs + 1 >= c.max_end {
        let room = c.max_end.saturating_sub(c.start);
        Some((if rel < room { rel } else { room }, false))
    } else {
        None
    }
}


/// A live candidate that can take the byte at absolute position `next`:
/// its signature exists and it started no later.
pub open spec fn live_ok(c: StreamingCandidate, nsigs: int, next: int) -> bool {
    c.signature_index < nsigs && c.start <= next
}

/// A non-empty header `h` ends at position `abs` of the stream `d`.
pub open spec fn header_ends_at(d: Seq<u8>, h: Seq<u8>, abs: int) -> bool {
    &&& h.len() > 0
    &&& h.len() - 1 <= abs
    &&& abs + 1 <= d.len()
    &&& d.subrange(abs - (h.len() - 1), abs + 1) == h
}

/// `a + b`, saturating at `u64::MAX`.
pub open spec fn sat_add_u64(a: int, b: int) -> int {
    if a + b > u64::MAX { u64::MAX as int } else { a + b }
}

/// The candidate that signature `idx`'s header ending at `abs` opens.
pub open spec fn opened(sigs: Seq<Signature>, idx: int, abs: int) -> CandView {
    let s = sigs[idx];
    let start = abs - (s.header@.len() - 1);
    (idx, start, sat_add_u64(start, s.max_size as int), opt_view(s.footer), spec_parser_for_ext(s.ext@), Seq::empty(), s.header@)
}

/// The live candidates after opening, in signature order, one for each of
/// the first `n` signatures whose header ends at `abs`.
pub open spec fn spec_open(active: Seq<CandView>, sigs: Seq<Signature>, d: Seq<u8>, abs: int, n: int) -> Seq<CandView>
    decreases n,
{
    if n <= 0 {
        active
    } else {
        let a = spec_open(active, sigs, d, abs, n - 1);
        if header_ends_at(d, sigs[n - 1].header@, abs) { a.push(opened(sigs, n - 1, abs)) } else { a }
    }
}

/// Opens a candidate for every signature whose non-empty header ends at
/// `combined[local]`, the byte at absolute position `abs` of the stream
/// `d`; `combined` is the part of `d` around it, holding enough earlier
/// bytes for every header unless it starts the stream.
fn open_candidates(
    active: &mut Vec<StreamingCandidate>,
    sigs: &[Signature],
    combined: &[u8],
    local: usize,
    abs: u64,
    Ghost(d): Ghost<Seq<u8>>,
)
    requires
        local < combined@.len(),
        local <= abs,
        forall|i: int| 0 <= i < old(active)@.len() ==> live_ok(#[trigger] old(active)@[i], sigs@.len() as int, abs as int),
        abs - local + combined@.len() <= d.len(),
        combined@ == d.subrange(abs - local, abs - local + combined@.len()),
        abs == local || forall|i: int| 0 <= i < sigs@.len() ==> (#[trigger] sigs@[i]).header@.len() <= local + 1,
    ensures
        forall|i: int| 0 <= i < final(active)@.len() ==> live_ok(#[trigger] final(active)@[i], sigs@.len() as int, abs as int),
        cand_views(final(active)@) == spec_open(cand_views(old(active)@), sigs@, d, abs as int, sigs@.len() as int),
{
    let ghost orig = cand_views(active@);
    let ghost base = abs - local;
    let mut idx: usize = 0;
    while idx < sigs.len()
        invariant
            local < combined@.len(),
            local <= abs,
            base == abs - local,
            base + combined@.len() <= d.len(),
            combined@ == d.subrange(base, base + combined@.len()),
            abs == local || forall|i: int| 0 <= i < sigs@.len() ==> (#[trigger] sigs@[i]).header@.len() <= local + 1,
            idx <= sigs@.len(),
            forall|i: int| 0 <= i < active@.len() ==> live_ok(#[trigger] active@[i], sigs@.len() as int, abs as int),
            cand_views(active@) == spec_open(orig, sigs@, d, abs as int, idx as int),
        decreases sigs@.len() - idx,
    {
        let sig = &sigs[idx];
        let hlen = sig.header.len();
        let hit = hlen > 0 && hlen - 1 <= local && eq_at(combined, local - (hlen - 1), sig.header.as_slice());
        proof {
            let h = sig.header@;
            if hit {
                assert(combined@.subrange(local - (hlen - 1), local + 1) =~= d.subrange(abs - (hlen - 1), abs + 1));
            } else if hlen > 0 && hlen - 1 <= local {
                assert(combined@.subrange(local - (hlen - 1), local + 1) =~= d.subrange(abs - (hlen - 1), abs + 1));
            } else if hlen > 0 {
                if abs != local {
                    assert(sigs@[idx as int].header@.len() <= local + 1);
                }
            }
            assert(hit == header_ends_at(d, h, abs as int));
        }
        if hit {
            let start = abs - (hlen - 1) as u64;
            let footer = match &sig.footer {
                Some(f) => {
                    let fc = f.clone();
                    assert(fc@ =~= f@);
                    Some(fc)
                },
                None => None,
            };
            let prefix = sig.header.clone();
            assert(prefix@ =~= sig.header@);
            let c = StreamingCandidate {
                signature_index: idx,
                start,
                max_end: start.saturating_add(sig.max_size as u64),
                footer,
                parser: parser_for_ext(sig.ext.as_str()),
                tail: Vec::new(),
                prefix,
            };
            let ghost before = cand_views(active@);
            active.push(c);
            proof {
                assert(cand_view(c) == opened(sigs@, idx as int, abs as int));
                assert(cand_views(active@) =~= before.push(cand_view(c)));
            }
        }
        idx = idx + 1;
    }
}

/// A finished candidate: signature, start, size, and whether its end was
/// structural.
pub type Finished = (usize, u64, u64, bool);

pub open spec fn finished_views(f: Seq<Finished>) -> Seq<(int, int, int, bool)> {
    f.map_values(|x: Finished| (x.0 as int, x.1 as int, x.2 as int, x.3))
}

/// One more byte at `abs` fed to every live candidate, in order: the ones
/// still open, and the ones that ended with (signature, start, size,
/// structural end), both in order.
pub open spec fn spec_advance_all(cs: Seq<CandView>, abs: int, byte: u8) -> (Seq<CandView>, Seq<(int, int, int, bool)>)
    decreases cs.len(),
{
    if cs.len() == 0 {
        (Seq::empty(), Seq::empty())
    } else {
        let (open, fin) = spec_advance_all(cs.drop_last(), abs, byte);
        let c = cs.last();
        let (next, end) = spec_advance(c, abs, byte);
        match end {
            Some((size, complete)) => (open, fin.push((c.0, c.1, size, complete))),
            None => (open.push(next), fin),
        }
    }
}

/// Feeds the byte at `abs` to every live candidate, keeping the ones still
/// open in order and returning the ones that ended, in order.
fn advance_all(active: &mut Vec<StreamingCandidate>, nsigs: usize, abs: u64, byte: u8) -> (fin: Vec<Finished>)
    requires
        abs < u64::MAX,
        forall|i: int| 0 <= i < old(active)@.len() ==> live_ok(#[trigger] old(active)@[i], nsigs as int, abs as int),
    ensures
        forall|i: int| 0 <= i < final(active)@.len() ==> live_ok(#[trigger] final(active)@[i], nsigs as int, abs + 1),
        forall|i: int| 0 <= i < fin@.len() ==> (#[trigger] fin@[i]).0 < nsigs,
        (cand_views(final(active)@), finished_views(fin@)) == spec_advance_all(cand_views(old(active)@), abs as int, byte),
{
    let ghost orig = cand_views(active@);
    let mut rest: Vec<StreamingCandidate> = Vec::new();
    std::mem::swap(&mut rest, active);
    let mut fin: Vec<Finished> = Vec::new();
    let ghost mut k: int = 0;
    while rest.len() > 0
        invariant
            abs < u64::MAX,
            forall|i: int| 0 <= i < rest@.len() ==> live_ok(#[trigger] rest@[i], nsigs as int, abs as int),
            forall|i: int| 0 <= i < active@.len() ==> live_ok(#[trigger] active@[i], nsigs as int, abs + 1),
            forall|i: int| 0 <= i < fin@.len() ==> (#[trigger] fin@[i]).0 < nsigs,
            0 <= k <= orig.len(),
            cand_views(rest@) == orig.subrange(k, orig.len() as int),
            (cand_views(active@), finished_views(fin@)) == spec_advance_all(orig.subrange(0, k), abs as int, byte),
        decreases rest@.len(),
    {
        let ghost prev = rest@;
        let mut c = rest.remove(0);
        proof {
            assert(rest@ =~= prev.subrange(1, prev.len() as int));
            assert(cand_views(prev).len() == prev.len());
            assert(c == prev[0]);
            assert(orig[k] == cand_view(c)) by {
                assert(cand_views(prev)[0] == cand_view(prev[0]));
                assert(cand_views(prev)[0] == orig.subrange(k, orig.len() as int)[0]);
            }
            assert(cand_views(rest@) =~= orig.subrange(k + 1, orig.len() as int)) by {
                assert forall|i: int| 0 <= i < rest@.len() implies cand_views(rest@)[i] == orig.subrange(k + 1, orig.len() as int)[i] by {
                    assert(rest@[i] == prev[i + 1]);
                    assert(cand_views(prev)[i + 1] == cand_view(prev[i + 1]));
                    assert(cand_views(prev)[i + 1] == orig.subrange(k, orig.len() as int)[i + 1]);
                }
            }
            let s1 = orig.subrange(0, k + 1);
            assert(s1.drop_last() =~= orig.subrange(0, k));
            assert(s1.last() == orig[k]);
        }
        assert(live_ok(c, nsigs as int, abs as int));
        let ghost cv = cand_view(c);
        let ghost a0 = cand_views(active@);
        let ghost f0 = finished_views(fin@);
        match advance(&mut c, abs, byte) {
            Some((size, complete)) => {
                fin.push((c.signature_index, c.start, size, complete));
                proof {
                    assert(finished_views(fin@) =~= f0.push((cv.0, cv.1, size as int, complete)));
                }
            },
            None => {
                active.push(c);
                proof {
                    assert(cand_views(active@) =~= a0.push(cand_view(c)));
                }
            },
        }
        proof {
            k = k + 1;
        }
    }
    proof {
        assert(orig.subrange(0, k) =~= orig);
    }
    fin
}

/// An item of the streaming carver's output: non-empty, complete when the
/// mode is quick, with the type, extension and size cap of one of the
/// signatures, and a 99% coverage cap.
pub open spec fn streamed_item_ok(c: CarvedView, sigs: Seq<Signature>, quick: bool) -> bool {
    &&& c.1 > 0
    &&& (quick ==> c.4)
    &&& c.6 == 99
    &&& exists|j: int|
        #![trigger sigs[j]]
        0 <= j < sigs.len() && sigs[j].file_type@ == c.2 && sigs[j].ext@ == c.3 && sigs[j].max_size == c.5
}

fn streamed_item(sigs: &[Signature], idx: usize, start: u64, size: u64, complete: bool, Ghost(quick): Ghost<bool>) -> (r: CarvedFile)
    requires
        idx < sigs@.len(),
        0 < size <= usize::MAX,
        quick ==> complete,
    ensures
        streamed_item_ok(r@, sigs@, quick),
        r.offset == start as usize,
        r.size == size,
        r.complete == complete,
        r@ == item_view(sigs@, idx as int, start as int, size as int, complete),
{
    let sig = &sigs[idx];
    let r = CarvedFile {
        offset: start as usize,
        size: size as usize,
        file_type: sig.file_type.clone(),
        ext: sig.ext.clone(),
        complete,
        max_size: sig.max_size,
        coverage_cap_percent: 99,
    };
    assert(sigs@[idx as int].file_type@ == r@.2);
    r
}

/// The item a candidate of signature `idx` starting at `start` gives.
pub open spec fn item_view(sigs: Seq<Signature>, idx: int, start: int, size: int, complete: bool) -> CarvedView {
    let s = sigs[idx];
    ((start as usize) as int, size, s.file_type@, s.ext@, complete, s.max_size as int, 99)
}

/// A finished candidate is reported when non-empty, addressable, and
/// structurally confirmed if the mode is quick.
pub open spec fn reported(size: int, complete: bool, quick: bool) -> bool {
    size > 0 && size <= usize::MAX && !(quick && !complete)
}

/// The output after reporting finished candidates, last finished first.
pub open spec fn spec_emit(out: Seq<CarvedView>, sigs: Seq<Signature>, fin: Seq<(int, int, int, bool)>, quick: bool) -> Seq<CarvedView>
    decreases fin.len(),
{
    if fin.len() == 0 {
        out
    } else {
        let f = fin.last();
        let o = if reported(f.2, f.3, quick) { out.push(item_view(sigs, f.0, f.1, f.2, f.3)) } else { out };
        spec_emit(o, sigs, fin.drop_last(), quick)
    }
}

/// Reports finished candidates, last finished first; empty ones, and
/// structurally unconfirmed ones in quick mode, are dropped.
fn emit(out: &mut Vec<CarvedFile>, sigs: &[Signature], fin: &Vec<Finished>, quick: bool)
    requires
        forall|i: int| 0 <= i < fin@.len() ==> (#[trigger] fin@[i]).0 < sigs@.len(),
        forall|i: int| 0 <= i < old(out)@.len() ==> streamed_item_ok((#[trigger] old(out)@[i])@, sigs@, quick),
    ensures
        forall|i: int| 0 <= i < final(out)@.len() ==> streamed_item_ok((#[trigger] final(out)@[i])@, sigs@, quick),
        carved_views(final(out)@) == spec_emit(carved_views(old(out)@), sigs@, finished_views(fin@), quick),
{
    let ghost fv = finished_views(fin@);
    let ghost target = spec_emit(carved_views(out@), sigs@, fv, quick);
    let mut k: usize = fin.len();
    assert(fv.subrange(0, k as int) =~= fv);
    while k > 0
        invariant
            k <= fin@.len(),
            fv == finished_views(fin@),
            forall|i: int| 0 <= i < fin@.len() ==> (#[trigger] fin@[i]).0 < sigs@.len(),
            forall|i: int| 0 <= i < out@.len() ==> streamed_item_ok((#[trigger] out@[i])@, sigs@, quick),
            spec_emit(carved_views(out@), sigs@, fv.subrange(0, k as int), quick) == target,
        decreases k,
    {
        let (idx, start, size, complete) = fin[k - 1];
        assert(fin@[k - 1].0 < sigs@.len());
        let ghost sub = fv.subrange(0, k as int);
        proof {
            assert(sub.drop_last() =~= fv.subrange(0, k - 1));
            assert(sub.last() == (idx as int, start as int, size as int, complete));
        }
        let ghost before = carved_views(out@);
        if size > 0 && size <= usize::MAX as u64 && !(quick && !complete) {
            let item = streamed_item(sigs, idx, start, size, complete, Ghost(quick));
            out.push(item);
            proof {
                assert(item@ == item_view(sigs@, idx as int, start as int, size as int, complete));
                assert(carved_views(out@) =~= before.push(item@));
            }
        }
        k = k - 1;
    }
}

/// The output after reporting, in order, the candidates still open when
/// the stream ends at `limit`: each runs to the limit, unconfirmed.
pub open spec fn spec_flush(out: Seq<CarvedView>, sigs: Seq<Signature>, active: Seq<CandView>, limit: int, quick: bool) -> Seq<CarvedView>
    decreases active.len(),
{
    if active.len() == 0 {
        out
    } else {
        let o = spec_flush(out, sigs, active.drop_last(), limit, quick);
        let c = active.last();
        let size = if limit > c.1 { limit - c.1 } else { 0 };
        if reported(size, false, quick) { o.push(item_view(sigs, c.0, c.1, size, false)) } else { o }
    }
}

/// Reports the candidates still open when the stream ends, capped at the
/// scan limit and marked incomplete (none in quick mode).
fn flush(out: &mut Vec<CarvedFile>, sigs: &[Signature], active: &Vec<StreamingCandidate>, scan_limit: u64, quick: bool)
    requires
        forall|i: int| 0 <= i < active@.len() ==> (#[trigger] active@[i]).signature_index < sigs@.len(),
        forall|i: int| 0 <= i < old(out)@.len() ==> streamed_item_ok((#[trigger] old(out)@[i])@, sigs@, quick),
    ensures
        forall|i: int| 0 <= i < final(out)@.len() ==> streamed_item_ok((#[trigger] final(out)@[i])@, sigs@, quick),
        carved_views(final(out)@) == spec_flush(carved_views(old(out)@), sigs@, cand_views(active@), scan_limit as int, quick),
{
    let ghost av = cand_views(active@);
    let ghost o0 = carved_views(out@);
    let mut k: usize = 0;
    while k < active.len()
        invariant
            k <= active@.len(),
            av == cand_views(active@),
            forall|i: int| 0 <= i < active@.len() ==> (#[trigger] active@[i]).signature_index < sigs@.len(),
            forall|i: int| 0 <= i < out@.len() ==> streamed_item_ok((#[trigger] out@[i])@, sigs@, quick),
            carved_views(out@) == spec_flush(o0, sigs@, av.subrange(0, k as int), scan_limit as int, quick),
        decreases active@.len() - k,
    {
        let c = &active[k];
        let size = scan_limit.saturating_sub(c.start);
        let ghost sub = av.subrange(0, k + 1);
        proof {
            assert(sub.drop_last() =~= av.subrange(0, k as int));
            assert(sub.last() == cand_view(*c));
        }
        let ghost before = carved_views(out@);
        if size > 0 && size <= usize::MAX as u64 && !quick {
            let item = streamed_item(sigs, c.signature_index, c.start, size, false, Ghost(quick));
            out.push(item);
            proof {
                assert(item@ == item_view(sigs@, c.signature_index as int, c.start as int, size as int, false));
                assert(carved_views(out@) =~= before.push(item@));
            }
        }
        k = k + 1;
    }
    assert(av.subrange(0, k as int) =~= av);
}


/// Where a stable insertion by offset puts `x` among the first `j`
/// elements of `s`: after every element whose offset is not larger.
pub open spec fn insert_pos(s: Seq<CarvedView>, x: CarvedView, j: int) -> int
    decreases j,
{
    if j <= 0 {
        0
    } else if x.0 < s[j - 1].0 {
        insert_pos(s, x, j - 1)
    } else {
        j
    }
}

/// Stable sort by offset (`sort_by_key(|c| c.offset)`), as insertion sort.
pub open spec fn sort_by_offset(s: Seq<CarvedView>) -> Seq<CarvedView>
    decreases s.len(),
{
    if s.len() == 0 {
        Seq::empty()
    } else {
        let r = sort_by_offset(s.drop_last());
        r.insert(insert_pos(r, s.last(), r.len() as int), s.last())
    }
}

/// Drops each element equal in offset and extension to the element kept
/// just before it (`dedup_by`).
pub open spec fn dedup_offset_ext(s: Seq<CarvedView>) -> Seq<CarvedView>
    decreases s.len(),
{
    if s.len() == 0 {
        Seq::empty()
    } else {
        let r = dedup_offset_ext(s.drop_last());
        if r.len() > 0 && r.last().0 == s.last().0 && r.last().3 == s.last().3 {
            r
        } else {
            r.push(s.last())
        }
    }
}

/// Offsets never decrease.
pub open spec fn sorted_by_offset(s: Seq<CarvedView>) -> bool {
    forall|i: int, j: int| 0 <= i < j < s.len() ==> (#[trigger] s[i]).0 <= (#[trigger] s[j]).0
}

/// No element repeats the offset and extension of the one before it.
pub open spec fn no_adjacent_duplicate(s: Seq<CarvedView>) -> bool {
    forall|i: int| 0 < i < s.len() ==> !((#[trigger] s[i]).0 == s[i - 1].0 && s[i].3 == s[i - 1].3)
}

proof fn lemma_insert_pos(s: Seq<CarvedView>, x: CarvedView, j: int)
    requires
        sorted_by_offset(s),
        0 <= j <= s.len(),
        forall|i: int| j <= i < s.len() ==> x.0 < (#[trigger] s[i]).0,
    ensures
        0 <= insert_pos(s, x, j) <= j,
        forall|i: int| insert_pos(s, x, j) <= i < s.len() ==> x.0 < (#[trigger] s[i]).0,
        forall|i: int| 0 <= i < insert_pos(s, x, j) ==> (#[trigger] s[i]).0 <= x.0,
    decreases j,
{
    if j > 0 && x.0 < s[j - 1].0 {
        lemma_insert_pos(s, x, j - 1);
    } else if j > 0 {
        assert forall|i: int| 0 <= i < j implies (#[trigger] s[i]).0 <= x.0 by {
            if i < j - 1 {
                assert(s[i].0 <= s[j - 1].0);
            }
        }
    }
}

/// Every element of the sorted sequence was in the input, the length is
/// kept, and offsets never decrease.
pub proof fn lemma_sort_by_offset(s: Seq<CarvedView>)
    ensures
        sort_by_offset(s).len() == s.len(),
        sorted_by_offset(sort_by_offset(s)),
        forall|i: int| 0 <= i < s.len() ==> exists|k: int| 0 <= k < s.len() && #[trigger] sort_by_offset(s)[i] == #[trigger] s[k],
    decreases s.len(),
{
    if s.len() > 0 {
        let t = s.drop_last();
        lemma_sort_by_offset(t);
        let r = sort_by_offset(t);
        let x = s.last();
        lemma_insert_pos(r, x, r.len() as int);
        let p = insert_pos(r, x, r.len() as int);
        let q = r.insert(p, x);
        assert forall|i: int, j: int| 0 <= i < j < q.len() implies (#[trigger] q[i]).0 <= (#[trigger] q[j]).0 by {
            if j < p {
                assert(q[i] == r[i] && q[j] == r[j]);
            } else if j == p {
                assert(q[j] == x);
                assert(q[i] == r[i]);
            } else if i < p {
                assert(q[i] == r[i] && q[j] == r[j - 1]);
                assert(r[i].0 <= x.0);
            } else if i == p {
                assert(q[i] == x && q[j] == r[j - 1]);
            } else {
                assert(q[i] == r[i - 1] && q[j] == r[j - 1]);
            }
        }
        assert forall|i: int| 0 <= i < s.len() implies exists|k: int| 0 <= k < s.len() && #[trigger] q[i] == #[trigger] s[k] by {
            if i == p {
                assert(q[i] == s[s.len() - 1]);
            } else {
                let ri = if i < p { i } else { i - 1 };
                assert(q[i] == r[ri]);
                let k = choose|k: int| 0 <= k < t.len() && r[ri] == #[trigger] t[k];
                assert(t[k] == s[k]);
            }
        }
    }
}

/// The deduplicated sequence keeps order and elements of its input and has
/// no element repeating its predecessor's offset and extension.
pub proof fn lemma_dedup_offset_ext(s: Seq<CarvedView>)
    ensures
        dedup_offset_ext(s).len() <= s.len(),
        no_adjacent_duplicate(dedup_offset_ext(s)),
        sorted_by_offset(s) ==> sorted_by_offset(dedup_offset_ext(s)),
        forall|i: int| 0 <= i < dedup_offset_ext(s).len() ==> exists|k: int| 0 <= k < s.len() && #[trigger] dedup_offset_ext(s)[i] == #[trigger] s[k],
        s.len() > 0 ==> dedup_offset_ext(s).len() > 0 && dedup_offset_ext(s).last().0 == s.last().0,
    decreases s.len(),
{
    if s.len() > 0 {
        let t = s.drop_last();
        lemma_dedup_offset_ext(t);
        let r = dedup_offset_ext(t);
        let d = dedup_offset_ext(s);
        if sorted_by_offset(s) {
            assert(sorted_by_offset(t));
            assert forall|i: int, j: int| 0 <= i < j < d.len() implies (#[trigger] d[i]).0 <= (#[trigger] d[j]).0 by {
                if j < r.len() {
                    assert(d[i] == r[i] && d[j] == r[j]);
                } else {
                    assert(d[j] == s.last());
                    assert(d[i] == r[i]);
                    let k = choose|k: int| 0 <= k < t.len() && r[i] == #[trigger] t[k];
                    assert(t[k] == s[k]);
                    assert(s[k].0 <= s[s.len() - 1].0);
                }
            }
        }
        assert forall|i: int| 0 <= i < d.len() implies exists|k: int| 0 <= k < s.len() && #[trigger] d[i] == #[trigger] s[k] by {
            if i < r.len() {
                assert(d[i] == r[i]);
                let k = choose|k: int| 0 <= k < t.len() && r[i] == #[trigger] t[k];
                assert(t[k] == s[k]);
            } else {
                assert(d[i] == s[s.len() - 1]);
            }
        }
        assert forall|i: int| 0 < i < d.len() implies !((#[trigger] d[i]).0 == d[i - 1].0 && d[i].3 == d[i - 1].3) by {
            if i < r.len() {
                assert(d[i] == r[i] && d[i - 1] == r[i - 1]);
            }
        }
    }
}

fn sort_carved_by_offset(v: Vec<CarvedFile>) -> (r: Vec<CarvedFile>)
    ensures
        carved_views(r@) == sort_by_offset(carved_views(v@)),
{
    let ghost orig = carved_views(v@);
    let mut rest = v;
    let mut r: Vec<CarvedFile> = Vec::new();
    let ghost mut k: int = 0;
    while rest.len() > 0
        invariant
            0 <= k <= orig.len(),
            carved_views(rest@) == orig.subrange(k, orig.len() as int),
            carved_views(r@) == sort_by_offset(orig.subrange(0, k)),
        decreases rest@.len(),
    {
        let ghost prev = rest@;
        let x = rest.remove(0);
        proof {
            assert(rest@ =~= prev.subrange(1, prev.len() as int));
            assert(carved_views(prev).len() == prev.len());
            assert(k < orig.len());
            assert(x == prev[0]);
            assert(orig[k] == x@) by {
                assert(carved_views(prev)[0] == prev[0]@);
                assert(carved_views(prev)[0] == orig.subrange(k, orig.len() as int)[0]);
            }
            assert(carved_views(rest@) =~= orig.subrange(k + 1, orig.len() as int)) by {
                assert forall|i: int| 0 <= i < rest@.len() implies carved_views(rest@)[i] == orig.subrange(k + 1, orig.len() as int)[i] by {
                    assert(carved_views(prev)[i + 1] == prev[i + 1]@);
                    assert(carved_views(prev)[i + 1] == orig.subrange(k, orig.len() as int)[i + 1]);
                    assert(rest@[i] == prev[i + 1]);
                }
            }
        }
        let mut j: usize = r.len();
        while j > 0 && x.offset < r[j - 1].offset
            invariant
                j <= r@.len(),
                insert_pos(carved_views(r@), x@, r@.len() as int) == insert_pos(carved_views(r@), x@, j as int),
            decreases j,
        {
            assert(carved_views(r@)[j - 1] == r@[j - 1]@);
            j = j - 1;
        }
        proof {
            if j > 0 {
                assert(carved_views(r@)[j - 1] == r@[j - 1]@);
            }
            let s1 = orig.subrange(0, k + 1);
            assert(s1.drop_last() =~= orig.subrange(0, k));
            assert(s1.last() == x@);
        }
        let ghost before = r@;
        r.insert(j, x);
        proof {
            assert(carved_views(r@) =~= carved_views(before).insert(j as int, x@));
            k = k + 1;
        }
    }
    proof {
        assert(orig.subrange(0, k) =~= orig);
    }
    r
}

fn dedup_carved(v: Vec<CarvedFile>) -> (r: Vec<CarvedFile>)
    ensures
        carved_views(r@) == dedup_offset_ext(carved_views(v@)),
{
    let ghost orig = carved_views(v@);
    let mut rest = v;
    let mut r: Vec<CarvedFile> = Vec::new();
    let ghost mut k: int = 0;
    while rest.len() > 0
        invariant
            0 <= k <= orig.len(),
            carved_views(rest@) == orig.subrange(k, orig.len() as int),
            carved_views(r@) == dedup_offset_ext(orig.subrange(0, k)),
        decreases rest@.len(),
    {
        let ghost prev = rest@;
        let x = rest.remove(0);
        proof {
            assert(rest@ =~= prev.subrange(1, prev.len() as int));
            assert(carved_views(prev).len() == prev.len());
            assert(k < orig.len());
            assert(x == prev[0]);
            assert(orig[k] == x@) by {
                assert(carved_views(prev)[0] == prev[0]@);
                assert(carved_views(prev)[0] == orig.subrange(k, orig.len() as int)[0]);
            }
            assert(carved_views(rest@) =~= orig.subrange(k + 1, orig.len() as int)) by {
                assert forall|i: int| 0 <= i < rest@.len() implies carved_views(rest@)[i] == orig.subrange(k + 1, orig.len() as int)[i] by {
                    assert(carved_views(prev)[i + 1] == prev[i + 1]@);
                    assert(carved_views(prev)[i + 1] == orig.subrange(k, orig.len() as int)[i + 1]);
                    assert(rest@[i] == prev[i + 1]);
                }
            }
            let s1 = orig.subrange(0, k + 1);
            assert(s1.drop_last() =~= orig.subrange(0, k));
            assert(s1.last() == x@);
        }
        let n = r.len();
        let dup = n > 0 && r[n - 1].offset == x.offset && str_eq(r[n - 1].ext.as_str(), x.ext.as_str());
        proof {
            if n > 0 {
                assert(carved_views(r@).last() == r@[n - 1]@);
            }
        }
        let ghost before = r@;
        if !dup {
            r.push(x);
            proof {
                assert(carved_views(r@) =~= carved_views(before).push(x@));
            }
        }
        proof {
            k = k + 1;
        }
    }
    proof {
        assert(orig.subrange(0, k) =~= orig);
    }
    r
}


/// The longest signature header (one when there is no signature).
pub open spec fn max_header_from(sigs: Seq<Signature>, k: int) -> int
    decreases sigs.len() - k,
{
    if k < 0 || k >= sigs.len() {
        0
    } else {
        let rest = max_header_from(sigs, k + 1);
        if sigs[k].header@.len() > rest { sigs[k].header@.len() as int } else { rest }
    }
}

fn max_header_len(sigs: &[Signature]) -> (r: usize)
    ensures
        r == (if sigs@.len() == 0 { 1 } else { max_header_from(sigs@, 0) }),
{
    if sigs.len() == 0 {
        return 1;
    }
    let mut k: usize = sigs.len();
    let mut m: usize = 0;
    while k > 0
        invariant
            k <= sigs@.len(),
            m == max_header_from(sigs@, k as int),
        decreases k,
    {
        let h = sigs[k - 1].header.len();
        if h > m {
            m = h;
        }
        k = k - 1;
    }
    m
}

/// The mode name `quick`, in any ASCII case.
pub open spec fn is_quick_mode(mode: Seq<u8>) -> bool {
    eq_ascii_nocase(mode, seq![0x71u8, 0x75, 0x69, 0x63, 0x6B])
}

/// What the streaming carver guarantees of its output: ordered by offset,
/// no element repeating its predecessor's offset and extension, and every
/// element a well-formed candidate of one of the signatures.
pub open spec fn streaming_result_ok(r: Seq<CarvedView>, sigs: Seq<Signature>, quick: bool) -> bool {
    &&& sorted_by_offset(r)
    &&& no_adjacent_duplicate(r)
    &&& forall|i: int| 0 <= i < r.len() ==> streamed_item_ok(#[trigger] r[i], sigs, quick)
}

/// Keeps, in order, each candidate that starts at or beyond the end of the
/// last one kept; also gives that end (0 before any is kept).
pub open spec fn accept_fold(s: Seq<CarvedView>) -> (Seq<CarvedView>, int)
    decreases s.len(),
{
    if s.len() == 0 {
        (Seq::empty(), 0)
    } else {
        let (acc, e) = accept_fold(s.drop_last());
        let c = s.last();
        if c.0 >= e {
            (acc.push(c), c.0 + c.1)
        } else {
            (acc, e)
        }
    }
}

/// The candidates accepted across the stream: one is accepted only at or
/// beyond the highest end accepted so far.
pub open spec fn keep_disjoint(s: Seq<CarvedView>) -> Seq<CarvedView> {
    accept_fold(s).0
}

/// Each candidate ends at or before every later one starts.
pub open spec fn disjoint_all(s: Seq<CarvedView>) -> bool {
    forall|i: int, j: int| 0 <= i < j < s.len() ==> (#[trigger] s[i]).0 + s[i].1 <= (#[trigger] s[j]).0
}

proof fn lemma_accept_fold(s: Seq<CarvedView>)
    requires
        forall|i: int| 0 <= i < s.len() ==> (#[trigger] s[i]).1 >= 0 && s[i].0 >= 0,
    ensures
        disjoint_all(accept_fold(s).0),
        accept_fold(s).1 >= 0,
        forall|i: int| 0 <= i < accept_fold(s).0.len() ==> (#[trigger] accept_fold(s).0[i]).0 + accept_fold(s).0[i].1 <= accept_fold(s).1,
        forall|i: int| 0 <= i < accept_fold(s).0.len() ==> exists|k: int| 0 <= k < s.len() && #[trigger] accept_fold(s).0[i] == s[k],
    decreases s.len(),
{
    if s.len() > 0 {
        let t = s.drop_last();
        assert forall|i: int| 0 <= i < t.len() implies (#[trigger] t[i]).1 >= 0 && t[i].0 >= 0 by {
            assert(t[i] == s[i]);
        }
        lemma_accept_fold(t);
        let (acc, e) = accept_fold(t);
        let c = s.last();
        assert forall|i: int| 0 <= i < accept_fold(s).0.len() implies exists|k: int| 0 <= k < s.len() && #[trigger] accept_fold(s).0[i] == s[k] by {
            if i < acc.len() {
                let k = choose|k: int| 0 <= k < t.len() && #[trigger] acc[i] == t[k];
                assert(accept_fold(s).0[i] == s[k]);
            } else {
                assert(accept_fold(s).0[i] == s[s.len() - 1]);
            }
        }
    }
}

/// The candidates of `v` that `keep_disjoint` keeps.
fn keep_disjoint_exec(v: &Vec<CarvedFile>) -> (r: Vec<CarvedFile>)
    ensures
        carved_views(r@) == keep_disjoint(carved_views(v@)),
{
    let ghost s = carved_views(v@);
    let mut r: Vec<CarvedFile> = Vec::new();
    let mut end: u128 = 0;
    let mut i: usize = 0;
    while i < v.len()
        invariant
            i <= v@.len(),
            s == carved_views(v@),
            carved_views(r@) == accept_fold(s.subrange(0, i as int)).0,
            end == accept_fold(s.subrange(0, i as int)).1,
        decreases v@.len() - i,
    {
        assert(s.subrange(0, i + 1).drop_last() =~= s.subrange(0, i as int));
        assert(s.subrange(0, i + 1).last() == v@[i as int]@);
        if v[i].offset as u128 >= end {
            let c = v[i].copy();
            r.push(c);
            end = v[i].offset as u128 + v[i].size as u128;
            assert(carved_views(r@) =~= accept_fold(s.subrange(0, i + 1)).0);
        }
        i = i + 1;
    }
    assert(s.subrange(0, v@.len() as int) =~= s);
    r
}

fn finish_stream(out: Vec<CarvedFile>, Ghost(sigs): Ghost<Seq<Signature>>, Ghost(quick): Ghost<bool>) -> (r: Vec<CarvedFile>)
    requires
        forall|i: int| 0 <= i < out@.len() ==> streamed_item_ok((#[trigger] out@[i])@, sigs, quick),
    ensures
        streaming_result_ok(carved_views(r@), sigs, quick),
        disjoint_all(carved_views(r@)),
        carved_views(r@) == keep_disjoint(dedup_offset_ext(sort_by_offset(carved_views(out@)))),
{
    let ghost v = carved_views(out@);
    let sorted = sort_carved_by_offset(out);
    let deduped = dedup_carved(sorted);
    let r = keep_disjoint_exec(&deduped);
    proof {
        lemma_sort_by_offset(v);
        let s = sort_by_offset(v);
        lemma_dedup_offset_ext(s);
        let d = dedup_offset_ext(s);
        assert forall|i: int| 0 <= i < d.len() implies streamed_item_ok(#[trigger] d[i], sigs, quick) && d[i].0 >= 0 by {
            let k = choose|k: int| 0 <= k < s.len() && #[trigger] d[i] == #[trigger] s[k];
            let k2 = choose|k2: int| 0 <= k2 < v.len() && #[trigger] s[k] == #[trigger] v[k2];
            assert(v[k2] == out@[k2]@);
        }
        lemma_accept_fold(d);
        let a = keep_disjoint(d);
        assert forall|i: int| 0 <= i < a.len() implies streamed_item_ok(#[trigger] a[i], sigs, quick) by {
            let k = choose|k: int| 0 <= k < d.len() && #[trigger] accept_fold(d).0[i] == d[k];
        }
        assert forall|i: int, j: int| 0 <= i < j < a.len() implies (#[trigger] a[i]).0 <= (#[trigger] a[j]).0 by {
            assert(a[i].0 + a[i].1 <= a[j].0);
            assert(streamed_item_ok(a[i], sigs, quick));
        }
        assert forall|i: int| 0 < i < a.len() implies !((#[trigger] a[i]).0 == a[i - 1].0 && a[i].3 == a[i - 1].3) by {
            assert(a[i - 1].0 + a[i - 1].1 <= a[i].0);
            assert(streamed_item_ok(a[i - 1], sigs, quick));
        }
    }
    r
}

/// The carver's state after one more byte, at position `abs` of the stream
/// `d`: candidates whose header ends there are opened, every live candidate
/// takes the byte, and the ones that ended are reported.
pub open spec fn spec_step(
    st: (Seq<CandView>, Seq<CarvedView>),
    sigs: Seq<Signature>,
    d: Seq<u8>,
    abs: int,
    quick: bool,
) -> (Seq<CandView>, Seq<CarvedView>) {
    let opened = spec_open(st.0, sigs, d, abs, sigs.len() as int);
    let (open, fin) = spec_advance_all(opened, abs, d[abs]);
    (open, spec_emit(st.1, sigs, fin, quick))
}

/// The live candidates and the output after the first `n` bytes of `d`.
pub open spec fn spec_scan(sigs: Seq<Signature>, d: Seq<u8>, n: int, quick: bool) -> (Seq<CandView>, Seq<CarvedView>)
    decreases n,
{
    if n <= 0 {
        (Seq::empty(), Seq::empty())
    } else {
        spec_step(spec_scan(sigs, d, n - 1, quick), sigs, d, n - 1, quick)
    }
}

/// How far the carver reads a device of `total` bytes: all of it, or the
/// first 128 MiB in quick mode.
pub open spec fn stream_limit(total: u64, quick: bool) -> int {
    if quick && total > 134217728 { 134217728 } else { total as int }
}

/// What the streaming carver reports for the bytes `d` it read, the scan
/// having been meant to reach `limit`: the candidates it reported along the
/// way and those still open at the end, ordered by offset, without
/// repeating a predecessor's offset and extension, and each accepted only
/// at or beyond the end of the one accepted before it.
pub open spec fn stream_result(d: Seq<u8>, sigs: Seq<Signature>, limit: int, quick: bool) -> Seq<CarvedView> {
    let st = spec_scan(sigs, d, d.len() as int, quick);
    keep_disjoint(dedup_offset_ext(sort_by_offset(spec_flush(st.1, sigs, st.0, limit, quick))))
}

/// `c` is what the streaming carver reports for some stream of bytes read
/// from a device of some size (see `stream_result`).
pub open spec fn carved_from_some_stream(c: Seq<CarvedView>, sigs: Seq<Signature>, quick: bool) -> bool {
    exists|total: u64, d: Seq<u8>|
        #![trigger stream_result(d, sigs, stream_limit(total, quick), quick)]
        d.len() <= stream_limit(total, quick) && c == stream_result(d, sigs, stream_limit(total, quick), quick)
}

/// Over a device holding `contents`, `c` is what the streaming carver
/// reports for the device's first `n` bytes, read from offset 0, the scan
/// having been meant to reach the limit for the size `total` the reader
/// reported (the device's length, or 0 when it reported none); `n` falls
/// short of that limit only where a read failed.
pub open spec fn carved_from_contents(c: Seq<CarvedView>, sigs: Seq<Signature>, quick: bool, contents: Seq<u8>) -> bool {
    exists|total: u64, n: int|
        #![trigger stream_result(contents.subrange(0, n), sigs, stream_limit(total, quick), quick)]
        (total == 0 || total == contents.len()) && 0 <= n <= stream_limit(total, quick) && n <= contents.len()
            && c == stream_result(contents.subrange(0, n), sigs, stream_limit(total, quick), quick)
}

/// What the streaming carver reports when it reads a device holding
/// `contents` in full, up to its scan limit.
pub open spec fn stream_full(sigs: Seq<Signature>, quick: bool, contents: Seq<u8>) -> Seq<CarvedView> {
    let limit = stream_limit(contents.len() as u64, quick);
    stream_result(contents.subrange(0, limit), sigs, limit, quick)
}

/// The bytes the first `n` of `reads` ask for, in all.
pub open spec fn read_total(reads: Seq<(u64, usize)>, n: int) -> int
    decreases n,
{
    if n <= 0 {
        0
    } else {
        read_total(reads, n - 1) + reads[n - 1].1
    }
}

/// Reads made in chunks from the start of the device towards `limit`: each
/// starts where the ones before it ended and asks for `chunk` bytes, or for
/// the rest up to `limit` when that is less.
pub open spec fn chunked_reads(reads: Seq<(u64, usize)>, chunk: int, limit: int) -> bool {
    forall|k: int| 0 <= k < reads.len() ==> {
        &&& (#[trigger] reads[k]).0 == read_total(reads, k)
        &&& reads[k].1 == (if limit - reads[k].0 < chunk { limit - reads[k].0 } else { chunk })
    }
}

/// The log `after` is `before` followed by reads made in chunks of `chunk`
/// bytes from the start of the device up to `total` bytes, which they ask
/// for in all.
pub open spec fn chunked_after(before: Seq<(u64, usize)>, after: Seq<(u64, usize)>, chunk: int, total: int) -> bool {
    &&& before.len() <= after.len()
    &&& after.subrange(0, before.len() as int) == before
    &&& chunked_reads(after.subrange(before.len() as int, after.len() as int), chunk, total)
    &&& read_total(after.subrange(before.len() as int, after.len() as int), after.len() - before.len()) == total
}

/// The size of the chunks the streaming carver reads for a requested chunk
/// size: that size, but at least 64 KiB.
pub open spec fn carve_chunk(chunk_size: usize) -> int {
    if chunk_size > 65536 { chunk_size as int } else { 65536 }
}

proof fn lemma_read_total_push(s: Seq<(u64, usize)>, r: (u64, usize), k: int)
    requires
        0 <= k <= s.len(),
    ensures
        read_total(s.push(r), k) == read_total(s, k),
    decreases k,
{
    if k > 0 {
        lemma_read_total_push(s, r, k - 1);
        assert(s.push(r)[k - 1] == s[k - 1]);
    }
}

proof fn lemma_chunked_push(s: Seq<(u64, usize)>, r: (u64, usize), chunk: int, limit: int)
    requires
        chunked_reads(s, chunk, limit),
        r.0 == read_total(s, s.len() as int),
        r.1 == (if limit - r.0 < chunk { limit - r.0 } else { chunk }),
    ensures
        chunked_reads(s.push(r), chunk, limit),
        read_total(s.push(r), s.len() + 1 as int) == read_total(s, s.len() as int) + r.1,
{
    let t = s.push(r);
    assert forall|k: int| 0 <= k < t.len() implies {
        &&& (#[trigger] t[k]).0 == read_total(t, k)
        &&& t[k].1 == (if limit - t[k].0 < chunk { limit - t[k].0 } else { chunk })
    } by {
        lemma_read_total_push(s, r, k);
        if k < s.len() {
            assert(t[k] == s[k]);
        }
    }
    lemma_read_total_push(s, r, s.len() as int);
}

/// Every signature's size cap is at least its header's length.
pub open spec fn caps_hold_headers(sigs: Seq<Signature>) -> bool {
    forall|j: int| 0 <= j < sigs.len() ==> (#[trigger] sigs[j]).header@.len() <= sigs[j].max_size
}

/// A live candidate of one of `sigs`, started at or before `abs`, whose
/// size-cap end is its start plus its signature's cap (saturating).
pub open spec fn cand_in(c: CandView, sigs: Seq<Signature>, abs: int) -> bool {
    &&& 0 <= c.0 < sigs.len()
    &&& 0 <= c.1 <= abs
    &&& c.2 == sat_add_u64(c.1, sigs[c.0].max_size as int)
}

/// Every item is non-empty, ends within the first `n` bytes, and, where
/// `capped`, is no larger than its signature's cap.
pub open spec fn items_within(out: Seq<CarvedView>, n: int, capped: bool) -> bool {
    forall|i: int| 0 <= i < out.len() ==> {
        &&& 0 <= (#[trigger] out[i]).0
        &&& 0 < out[i].1
        &&& out[i].0 + out[i].1 <= n
        &&& (capped ==> out[i].1 <= out[i].5)
    }
}

proof fn lemma_open_bounds(active: Seq<CandView>, sigs: Seq<Signature>, d: Seq<u8>, abs: int, n: int)
    requires
        0 <= abs < d.len() <= usize::MAX,
        n <= sigs.len(),
        forall|i: int| 0 <= i < active.len() ==> cand_in(#[trigger] active[i], sigs, abs) && abs < active[i].2,
    ensures
        forall|i: int| 0 <= i < spec_open(active, sigs, d, abs, n).len() ==> {
            &&& cand_in(#[trigger] spec_open(active, sigs, d, abs, n)[i], sigs, abs)
            &&& (caps_hold_headers(sigs) ==> abs < spec_open(active, sigs, d, abs, n)[i].2)
        },
    decreases n,
{
    if n > 0 {
        lemma_open_bounds(active, sigs, d, abs, n - 1);
        let a = spec_open(active, sigs, d, abs, n - 1);
        if header_ends_at(d, sigs[n - 1].header@, abs) {
            let o = opened(sigs, n - 1, abs);
            assert forall|i: int| 0 <= i < a.push(o).len() implies {
                &&& cand_in(#[trigger] a.push(o)[i], sigs, abs)
                &&& (caps_hold_headers(sigs) ==> abs < a.push(o)[i].2)
            } by {
                if i < a.len() {
                    assert(a.push(o)[i] == a[i]);
                } else {
                    assert(a.push(o)[i] == o);
                    if caps_hold_headers(sigs) {
                        assert(sigs[n - 1].header@.len() <= sigs[n - 1].max_size);
                    }
                }
            }
        }
    }
}

proof fn lemma_advance_bounds(cs: Seq<CandView>, sigs: Seq<Signature>, abs: int, byte: u8)
    requires
        0 <= abs < u64::MAX,
        forall|i: int| 0 <= i < cs.len() ==> cand_in(#[trigger] cs[i], sigs, abs) && (caps_hold_headers(sigs) ==> abs < cs[i].2),
    ensures
        forall|i: int| 0 <= i < spec_advance_all(cs, abs, byte).0.len() ==>
            cand_in(#[trigger] spec_advance_all(cs, abs, byte).0[i], sigs, abs) && abs + 1 < spec_advance_all(cs, abs, byte).0[i].2,
        forall|i: int| 0 <= i < spec_advance_all(cs, abs, byte).1.len() ==> {
            let f = #[trigger] spec_advance_all(cs, abs, byte).1[i];
            &&& 0 <= f.0 < sigs.len()
            &&& 0 <= f.1 <= abs
            &&& f.1 + f.2 <= abs + 1
            &&& (caps_hold_headers(sigs) ==> f.2 <= sigs[f.0].max_size)
        },
    decreases cs.len(),
{
    if cs.len() > 0 {
        let t = cs.drop_last();
        assert forall|i: int| 0 <= i < t.len() implies cand_in(#[trigger] t[i], sigs, abs) && (caps_hold_headers(sigs) ==> abs < t[i].2) by {
            assert(t[i] == cs[i]);
        }
        lemma_advance_bounds(t, sigs, abs, byte);
        let (open, fin) = spec_advance_all(t, abs, byte);
        let c = cs.last();
        assert(cand_in(c, sigs, abs));
        let (next, end) = spec_advance(c, abs, byte);
        let rel = abs + 1 - c.1;
        let room = if c.2 >= c.1 { c.2 - c.1 } else { 0 };
        assert(room <= sigs[c.0].max_size);
        match end {
            Some((size, complete)) => {
                assert(size <= rel);
                if caps_hold_headers(sigs) {
                    assert(abs < c.2);
                    assert(size <= sigs[c.0].max_size);
                }
                let f2 = fin.push((c.0, c.1, size, complete));
                assert forall|i: int| 0 <= i < f2.len() implies {
                    let f = #[trigger] f2[i];
                    &&& 0 <= f.0 < sigs.len()
                    &&& 0 <= f.1 <= abs
                    &&& f.1 + f.2 <= abs + 1
                    &&& (caps_hold_headers(sigs) ==> f.2 <= sigs[f.0].max_size)
                } by {
                    if i < fin.len() {
                        assert(f2[i] == fin[i]);
                    }
                }
            },
            None => {
                assert(abs + 1 < c.2);
                let o2 = open.push(next);
                assert forall|i: int| 0 <= i < o2.len() implies cand_in(#[trigger] o2[i], sigs, abs) && abs + 1 < o2[i].2 by {
                    if i < open.len() {
                        assert(o2[i] == open[i]);
                    }
                }
            },
        }
    }
}

proof fn lemma_emit_bounds(out: Seq<CarvedView>, sigs: Seq<Signature>, fin: Seq<(int, int, int, bool)>, quick: bool, n: int, capped: bool)
    requires
        n <= usize::MAX + 1,
        items_within(out, n, capped),
        forall|i: int| 0 <= i < fin.len() ==> {
            let f = #[trigger] fin[i];
            &&& 0 <= f.0 < sigs.len()
            &&& 0 <= f.1 < n
            &&& f.1 + f.2 <= n
            &&& (capped ==> f.2 <= sigs[f.0].max_size)
        },
    ensures
        items_within(spec_emit(out, sigs, fin, quick), n, capped),
    decreases fin.len(),
{
    if fin.len() > 0 {
        let f = fin.last();
        let o = if reported(f.2, f.3, quick) { out.push(item_view(sigs, f.0, f.1, f.2, f.3)) } else { out };
        if reported(f.2, f.3, quick) {
            let it = item_view(sigs, f.0, f.1, f.2, f.3);
            assert(it.0 == f.1);
            assert forall|i: int| 0 <= i < o.len() implies {
                &&& 0 <= (#[trigger] o[i]).0
                &&& o[i].0 + o[i].1 <= n
                &&& (capped ==> o[i].1 <= o[i].5)
            } by {
                if i < out.len() {
                    assert(o[i] == out[i]);
                    assert(0 < out[i].1);
                }
            }
        }
        let t = fin.drop_last();
        assert forall|i: int| 0 <= i < t.len() implies {
            let g = #[trigger] t[i];
            &&& 0 <= g.0 < sigs.len()
            &&& 0 <= g.1 < n
            &&& g.1 + g.2 <= n
            &&& (capped ==> g.2 <= sigs[g.0].max_size)
        } by {
            assert(t[i] == fin[i]);
        }
        lemma_emit_bounds(o, sigs, t, quick, n, capped);
    }
}

proof fn lemma_scan_bounds(sigs: Seq<Signature>, d: Seq<u8>, n: int, quick: bool)
    requires
        0 <= n <= d.len() <= usize::MAX,
    ensures
        forall|i: int| 0 <= i < spec_scan(sigs, d, n, quick).0.len() ==>
            cand_in(#[trigger] spec_scan(sigs, d, n, quick).0[i], sigs, n) && n < spec_scan(sigs, d, n, quick).0[i].2,
        items_within(spec_scan(sigs, d, n, quick).1, n, caps_hold_headers(sigs)),
    decreases n,
{
    if n > 0 {
        let abs = n - 1;
        lemma_scan_bounds(sigs, d, abs, quick);
        let st = spec_scan(sigs, d, abs, quick);
        assert forall|i: int| 0 <= i < st.0.len() implies cand_in(#[trigger] st.0[i], sigs, abs) && abs < st.0[i].2 by {
            assert(cand_in(st.0[i], sigs, abs - 0));
        }
        lemma_open_bounds(st.0, sigs, d, abs, sigs.len() as int);
        let opened = spec_open(st.0, sigs, d, abs, sigs.len() as int);
        lemma_advance_bounds(opened, sigs, abs, d[abs]);
        let (open, fin) = spec_advance_all(opened, abs, d[abs]);
        assert forall|i: int| 0 <= i < open.len() implies cand_in(#[trigger] open[i], sigs, n) && n < open[i].2 by {
            assert(cand_in(open[i], sigs, abs));
        }
        assert(items_within(st.1, n, caps_hold_headers(sigs))) by {
            assert forall|i: int| 0 <= i < st.1.len() implies {
                &&& 0 <= (#[trigger] st.1[i]).0
                &&& st.1[i].0 + st.1[i].1 <= n
                &&& (caps_hold_headers(sigs) ==> st.1[i].1 <= st.1[i].5)
            } by {
                assert(st.1[i].0 + st.1[i].1 <= abs);
            }
        }
        lemma_emit_bounds(st.1, sigs, fin, quick, n, caps_hold_headers(sigs));
    }
}

proof fn lemma_flush_bounds(out: Seq<CarvedView>, sigs: Seq<Signature>, active: Seq<CandView>, n: int, limit: int, quick: bool, capped: bool)
    requires
        0 <= n <= limit <= usize::MAX,
        items_within(out, limit, capped),
        forall|i: int| 0 <= i < active.len() ==> cand_in(#[trigger] active[i], sigs, n) && n < active[i].2,
        capped ==> n == limit,
    ensures
        items_within(spec_flush(out, sigs, active, limit, quick), limit, capped),
    decreases active.len(),
{
    if active.len() > 0 {
        let t = active.drop_last();
        assert forall|i: int| 0 <= i < t.len() implies cand_in(#[trigger] t[i], sigs, n) && n < t[i].2 by {
            assert(t[i] == active[i]);
        }
        lemma_flush_bounds(out, sigs, t, n, limit, quick, capped);
        let o = spec_flush(out, sigs, t, limit, quick);
        let c = active.last();
        assert(cand_in(c, sigs, n));
        let size = if limit > c.1 { limit - c.1 } else { 0 };
        if reported(size, false, quick) {
            let it = item_view(sigs, c.0, c.1, size, false);
            assert(it.0 == c.1);
            if capped {
                assert(size <= sigs[c.0].max_size);
            }
            assert forall|i: int| 0 <= i < o.push(it).len() implies {
                &&& 0 <= (#[trigger] o.push(it)[i]).0
                &&& o.push(it)[i].0 + o.push(it)[i].1 <= limit
                &&& (capped ==> o.push(it)[i].1 <= o.push(it)[i].5)
            } by {
                if i < o.len() {
                    assert(o.push(it)[i] == o[i]);
                }
            }
        }
    }
}

/// Every candidate the streaming carver reports for bytes `d` read towards
/// the scan limit `limit` ends within that limit; when all of `d` up to the
/// limit was read and every signature's size cap holds its header, none is
/// larger than its signature's size cap.
pub proof fn law_stream_items_bounded(d: Seq<u8>, sigs: Seq<Signature>, limit: int, quick: bool)
    requires
        d.len() <= limit <= usize::MAX,
    ensures
        forall|i: int| 0 <= i < stream_result(d, sigs, limit, quick).len() ==> {
            let c = #[trigger] stream_result(d, sigs, limit, quick)[i];
            &&& 0 <= c.0
            &&& c.0 + c.1 <= limit
            &&& (d.len() == limit && caps_hold_headers(sigs) ==> c.1 <= c.5)
        },
{
    let capped = d.len() == limit && caps_hold_headers(sigs);
    let st = spec_scan(sigs, d, d.len() as int, quick);
    lemma_scan_bounds(sigs, d, d.len() as int, quick);
    assert(items_within(st.1, limit, capped)) by {
        assert forall|i: int| 0 <= i < st.1.len() implies {
            &&& 0 <= (#[trigger] st.1[i]).0
            &&& st.1[i].0 + st.1[i].1 <= limit
            &&& (capped ==> st.1[i].1 <= st.1[i].5)
        } by {
            assert(st.1[i].0 + st.1[i].1 <= d.len());
        }
    }
    lemma_flush_bounds(st.1, sigs, st.0, d.len() as int, limit, quick, capped);
    let f = spec_flush(st.1, sigs, st.0, limit, quick);
    lemma_sort_by_offset(f);
    let so = sort_by_offset(f);
    lemma_dedup_offset_ext(so);
    let dd = dedup_offset_ext(so);
    assert forall|i: int| 0 <= i < dd.len() implies (#[trigger] dd[i]).1 >= 0 && dd[i].0 >= 0 by {
        let k = choose|k: int| 0 <= k < so.len() && #[trigger] dd[i] == #[trigger] so[k];
        let k2 = choose|k2: int| 0 <= k2 < f.len() && #[trigger] so[k] == #[trigger] f[k2];
        assert(f[k2].0 >= 0);
    }
    lemma_accept_fold(dd);
    let a = keep_disjoint(dd);
    assert forall|i: int| 0 <= i < a.len() implies {
        let c = #[trigger] a[i];
        &&& 0 <= c.0
        &&& c.0 + c.1 <= limit
        &&& (capped ==> c.1 <= c.5)
    } by {
        let k = choose|k: int| 0 <= k < dd.len() && #[trigger] accept_fold(dd).0[i] == dd[k];
        let k1 = choose|k1: int| 0 <= k1 < so.len() && #[trigger] dd[k] == #[trigger] so[k1];
        let k2 = choose|k2: int| 0 <= k2 < f.len() && #[trigger] so[k1] == #[trigger] f[k2];
        assert(f[k2].0 + f[k2].1 <= limit);
    }
}

proof fn lemma_open_prefix(active: Seq<CandView>, sigs: Seq<Signature>, d1: Seq<u8>, d2: Seq<u8>, abs: int, n: int)
    requires
        0 <= abs,
        abs + 1 <= d1.len(),
        abs + 1 <= d2.len(),
        d1.subrange(0, abs + 1) == d2.subrange(0, abs + 1),
    ensures
        spec_open(active, sigs, d1, abs, n) == spec_open(active, sigs, d2, abs, n),
    decreases n,
{
    if n > 0 {
        lemma_open_prefix(active, sigs, d1, d2, abs, n - 1);
        let h = sigs[n - 1].header@;
        if h.len() > 0 && h.len() - 1 <= abs {
            let a = abs - (h.len() - 1);
            assert forall|i: int| 0 <= i < h.len() implies #[trigger] d1.subrange(a, abs + 1)[i] == d2.subrange(a, abs + 1)[i] by {
                assert(0 <= a + i < abs + 1);
                assert(d1.subrange(a, abs + 1)[i] == d1[a + i]);
                assert(d2.subrange(a, abs + 1)[i] == d2[a + i]);
                assert(d1.subrange(0, abs + 1)[a + i] == d1[a + i]);
                assert(d2.subrange(0, abs + 1)[a + i] == d2[a + i]);
            }
            assert(d1.subrange(a, abs + 1) =~= d2.subrange(a, abs + 1));
        }
    }
}

/// The carver's state after `n` bytes depends on those bytes alone.
proof fn lemma_scan_prefix(sigs: Seq<Signature>, d1: Seq<u8>, d2: Seq<u8>, n: int, quick: bool)
    requires
        0 <= n <= d1.len(),
        n <= d2.len(),
        d1.subrange(0, n) == d2.subrange(0, n),
    ensures
        spec_scan(sigs, d1, n, quick) == spec_scan(sigs, d2, n, quick),
    decreases n,
{
    if n > 0 {
        assert(d1.subrange(0, n - 1) =~= d2.subrange(0, n - 1)) by {
            assert forall|i: int| 0 <= i < n - 1 implies #[trigger] d1.subrange(0, n - 1)[i] == d2.subrange(0, n - 1)[i] by {
                assert(d1.subrange(0, n)[i] == d2.subrange(0, n)[i]);
            }
        }
        lemma_scan_prefix(sigs, d1, d2, n - 1, quick);
        let st = spec_scan(sigs, d1, n - 1, quick);
        lemma_open_prefix(st.0, sigs, d1, d2, n - 1, sigs.len() as int);
        assert(d1[n - 1] == d1.subrange(0, n)[n - 1]);
        assert(d2[n - 1] == d2.subrange(0, n)[n - 1]);
    }
}

proof fn lemma_max_header(sigs: Seq<Signature>, k: int, i: int)
    requires
        0 <= k <= i < sigs.len(),
    ensures
        sigs[i].header@.len() <= max_header_from(sigs, k),
    decreases i - k,
{
    if k < i {
        lemma_max_header(sigs, k + 1, i);
    }
}

/// Streams the whole device through the carver, `chunk_size` bytes at a
/// time (at least 64 KiB), with the last bytes of each chunk carried into
/// the next so that a header split across chunks is still seen. Each live
/// candidate ends at its format parser's end, at its footer, or at its size
/// cap; in quick mode only the first 128 MiB are scanned and only
/// structurally confirmed candidates are kept. A failed read ends the scan.
/// The result is what `stream_result` gives for the bytes the reader
/// returned and the size it reported; over a faithful reader those bytes
/// are the device's, from offset 0, and over a reader that reads the whole
/// device the scan reaches its limit.
fn carve_stream<R: StorageReader>(reader: &mut R, sigs: &[Signature], chunk_size: usize, quick: bool) -> (r: Vec<CarvedFile>)
    ensures
        streaming_result_ok(carved_views(r@), sigs@, quick),
        disjoint_all(carved_views(r@)),
        carved_from_some_stream(carved_views(r@), sigs@, quick),
        final(reader).contents() == old(reader).contents(),
        final(reader).faithful() == old(reader).faithful(),
        final(reader).reliable() == old(reader).reliable(),
        final(reader).exact_inside() == old(reader).exact_inside(),
        old(reader).faithful() ==> carved_from_contents(carved_views(r@), sigs@, quick, old(reader).contents()),
        reads_whole_device(*old(reader)) ==> carved_views(r@) == stream_full(sigs@, quick, old(reader).contents()),
        reads_whole_device(*old(reader)) && old(reader).contents().len() <= usize::MAX ==> forall|i: int| 0 <= i < r@.len() ==>
            (#[trigger] r@[i]).offset + r@[i].size <= stream_limit(old(reader).contents().len() as u64, quick)
            && (caps_hold_headers(sigs@) ==> r@[i].size <= r@[i].max_size),
        final(reader).logs_reads() == old(reader).logs_reads(),
        old(reader).logs_reads() ==> old(reader).reads().len() <= final(reader).reads().len()
            && final(reader).reads().subrange(0, old(reader).reads().len() as int) == old(reader).reads(),
        old(reader).logs_reads() && reads_whole_device(*old(reader)) ==> chunked_after(old(reader).reads(), final(reader).reads(),
            carve_chunk(chunk_size), stream_limit(old(reader).contents().len() as u64, quick)),
{
    let ghost full = reads_whole_device(*old(reader));
    let ghost n0 = old(reader).reads().len() as int;
    let ghost logs = old(reader).logs_reads();
    let ghost exact = old(reader).faithful() || full;
    let total: u64 = match reader.get_size() {
        Ok(t) => t,
        Err(_) => 0,
    };
    let scan_limit: u64 = if quick {
        if total < 134217728 { total } else { 134217728 }
    } else {
        total
    };
    assert(scan_limit == stream_limit(total, quick));
    assert(old(reader).faithful() ==> (total == 0 || total == old(reader).contents().len()));
    assert(full ==> total == old(reader).contents().len());
    let mut state = StreamingCarverState::new();
    let mut out: Vec<CarvedFile> = Vec::new();
    let mut pos: u64 = 0;
    let keep = max_header_len(sigs).saturating_sub(1);
    proof {
        assert forall|i: int| 0 <= i < sigs@.len() implies (#[trigger] sigs@[i]).header@.len() <= keep + 1 by {
            lemma_max_header(sigs@, 0, i);
        }
    }
    let mut carry: Vec<u8> = Vec::new();
    let chunk_len: usize = if chunk_size > 65536 { chunk_size } else { 65536 };
    let ghost mut d: Seq<u8> = Seq::empty();
    proof {
        assert(cand_views(state.active_candidates@) =~= Seq::<CandView>::empty());
        assert(carved_views(out@) =~= Seq::<CarvedView>::empty());
        assert(carry@ =~= d.subrange(0, 0));
        if logs {
            assert(reader.reads().subrange(n0, reader.reads().len() as int) =~= Seq::<(u64, usize)>::empty());
            assert(reader.reads().subrange(0, n0) =~= old(reader).reads());
        }
    }
    while pos < scan_limit
        invariant_except_break
            logs ==> read_total(reader.reads().subrange(n0, reader.reads().len() as int), reader.reads().len() - n0) == pos,
        invariant
            pos <= scan_limit,
            chunk_len >= 65536,
            forall|i: int| 0 <= i < sigs@.len() ==> (#[trigger] sigs@[i]).header@.len() <= keep + 1,
            d.len() == pos,
            carry@.len() == (if pos < keep { pos as int } else { keep as int }),
            carry@ == d.subrange(pos - carry@.len(), pos as int),
            (cand_views(state.active_candidates@), carved_views(out@)) == spec_scan(sigs@, d, pos as int, quick),
            forall|i: int| 0 <= i < state.active_candidates@.len()
                ==> live_ok(#[trigger] state.active_candidates@[i], sigs@.len() as int, pos as int),
            forall|i: int| 0 <= i < out@.len() ==> streamed_item_ok((#[trigger] out@[i])@, sigs@, quick),
            reader.contents() == old(reader).contents(),
            reader.faithful() == old(reader).faithful(),
            reader.reliable() == old(reader).reliable(),
            reader.exact_inside() == old(reader).exact_inside(),
            full == (reads_whole_device(*old(reader))),
            full ==> total == old(reader).contents().len(),
            exact == (old(reader).faithful() || full),
            scan_limit == stream_limit(total, quick),
            exact ==> pos <= old(reader).contents().len() && d == old(reader).contents().subrange(0, pos as int),
            logs == old(reader).logs_reads(),
            reader.logs_reads() == logs,
            n0 == old(reader).reads().len(),
            chunk_len as int == carve_chunk(chunk_size),
            logs ==> n0 <= reader.reads().len() && reader.reads().subrange(0, n0) == old(reader).reads()
                && chunked_reads(reader.reads().subrange(n0, reader.reads().len() as int), chunk_len as int, scan_limit as int),
        ensures
            full ==> pos == scan_limit,
            logs && full ==> read_total(reader.reads().subrange(n0, reader.reads().len() as int), reader.reads().len() - n0) == pos,
            reader.logs_reads() == logs,
            logs ==> n0 <= reader.reads().len() && reader.reads().subrange(0, n0) == old(reader).reads()
                && chunked_reads(reader.reads().subrange(n0, reader.reads().len() as int), chunk_len as int, scan_limit as int),
            pos <= scan_limit,
            d.len() == pos,
            (cand_views(state.active_candidates@), carved_views(out@)) == spec_scan(sigs@, d, pos as int, quick),
            forall|i: int| 0 <= i < state.active_candidates@.len()
                ==> live_ok(#[trigger] state.active_candidates@[i], sigs@.len() as int, pos as int),
            forall|i: int| 0 <= i < out@.len() ==> streamed_item_ok((#[trigger] out@[i])@, sigs@, quick),
            reader.contents() == old(reader).contents(),
            reader.faithful() == old(reader).faithful(),
            reader.reliable() == old(reader).reliable(),
            reader.exact_inside() == old(reader).exact_inside(),
            exact ==> pos <= old(reader).contents().len() && d == old(reader).contents().subrange(0, pos as int),
        decreases scan_limit - pos,
    {
        let rem = scan_limit - pos;
        let want: usize = if rem < chunk_len as u64 { rem as usize } else { chunk_len };
        let ghost log0 = reader.reads();
        let rd = reader.read_range(pos, want);
        proof {
            if logs {
                let seg0 = log0.subrange(n0, log0.len() as int);
                let log1 = reader.reads();
                assert(log1 == log0.push((pos, want)));
                assert(log1.subrange(n0, log1.len() as int) =~= seg0.push((pos, want)));
                assert(log1.subrange(0, n0) =~= log0.subrange(0, n0));
                lemma_chunked_push(seg0, (pos, want), chunk_len as int, scan_limit as int);
            }
        }
        let mut bytes = match rd {
            Ok(b) => b,
            Err(_) => {
                proof {
                    if full {
                        assert(pos + want <= scan_limit);
                        assert(scan_limit <= total);
                        assert(false);
                    }
                }
                break;
            },
        };
        let ghost d2 = d + bytes@;
        let carry_len = carry.len();
        proof {
            if exact {
                if full {
                    assert(pos + want <= scan_limit);
                    assert(scan_limit <= total);
                }
                assert(bytes@ == old(reader).contents().subrange(pos as int, pos + want));
                assert(d2 =~= old(reader).contents().subrange(0, pos + want));
            }
            assert(d2.subrange(0, pos as int) =~= d.subrange(0, pos as int));
            lemma_scan_prefix(sigs@, d, d2, pos as int, quick);
        }
        let mut combined: Vec<u8> = Vec::new();
        std::mem::swap(&mut combined, &mut carry);
        combined.append(&mut bytes);
        proof {
            assert(combined@ =~= d2.subrange(pos - carry_len, pos + want));
        }
        let mut local = carry_len;
        while local < combined.len()
            invariant
                carry_len <= local <= combined@.len(),
                combined@.len() == carry_len + want,
                carry_len <= pos,
                carry_len == (if pos < keep { pos as int } else { keep as int }),
                pos + want <= scan_limit,
                forall|i: int| 0 <= i < sigs@.len() ==> (#[trigger] sigs@[i]).header@.len() <= keep + 1,
                d2.len() == pos + want,
                combined@ == d2.subrange(pos - carry_len, pos + want),
                (cand_views(state.active_candidates@), carved_views(out@))
                    == spec_scan(sigs@, d2, pos + (local - carry_len), quick),
                forall|i: int| 0 <= i < state.active_candidates@.len()
                    ==> live_ok(#[trigger] state.active_candidates@[i], sigs@.len() as int, pos + (local - carry_len)),
                forall|i: int| 0 <= i < out@.len() ==> streamed_item_ok((#[trigger] out@[i])@, sigs@, quick),
                reader.contents() == old(reader).contents(),
                reader.faithful() == old(reader).faithful(),
                reader.reliable() == old(reader).reliable(),
                reader.exact_inside() == old(reader).exact_inside(),
                exact ==> pos + want <= old(reader).contents().len() && d2 == old(reader).contents().subrange(0, pos + want),
            decreases combined@.len() - local,
        {
            let abs = pos + (local - carry_len) as u64;
            let ghost st = spec_scan(sigs@, d2, abs as int, quick);
            proof {
                if abs != local {
                    assert forall|i: int| 0 <= i < sigs@.len() implies (#[trigger] sigs@[i]).header@.len() <= local + 1 by {
                        assert(sigs@[i].header@.len() <= keep + 1);
                    }
                }
            }
            open_candidates(&mut state.active_candidates, sigs, combined.as_slice(), local, abs, Ghost(d2));
            let byte = combined[local];
            proof {
                assert(byte == d2[abs as int]);
            }
            let fin = advance_all(&mut state.active_candidates, sigs.len(), abs, byte);
            emit(&mut out, sigs, &fin, quick);
            proof {
                assert(spec_scan(sigs@, d2, abs + 1, quick) == spec_step(st, sigs@, d2, abs as int, quick));
            }
            local = local + 1;
        }
        let cl = combined.len();
        let from = if cl > keep { cl - keep } else { 0 };
        carry = vstd::slice::slice_to_vec(&combined.as_slice()[from..cl]);
        proof {
            assert(carry@ =~= d2.subrange(pos + want - carry@.len(), pos + want));
            d = d2;
        }
        pos = pos + want as u64;
    }
    flush(&mut out, sigs, &state.active_candidates, scan_limit, quick);
    let r = finish_stream(out, Ghost(sigs@), Ghost(quick));
    proof {
        assert(carved_views(r@) == stream_result(d, sigs@, stream_limit(total, quick), quick));
        if old(reader).faithful() {
            assert(carved_views(r@) == stream_result(old(reader).contents().subrange(0, d.len() as int), sigs@, stream_limit(total, quick), quick));
        }
        if full {
            assert(total as int == old(reader).contents().len());
            assert(old(reader).contents().len() as u64 == total);
            if old(reader).contents().len() <= usize::MAX {
                let lim = stream_limit(total, quick);
                law_stream_items_bounded(old(reader).contents().subrange(0, lim), sigs@, lim, quick);
                assert forall|i: int| 0 <= i < r@.len() implies
                    (#[trigger] r@[i]).offset + r@[i].size <= lim && (caps_hold_headers(sigs@) ==> r@[i].size <= r@[i].max_size) by {
                    assert(carved_views(r@)[i] == r@[i]@);
                }
            }
        }
    }
    r
}

/// Streaming carve over the whole device in deep mode (see
/// `carve_streaming_mode`).
pub fn carve_streaming<R: StorageReader>(reader: &mut R, sigs: &[Signature], chunk_size: usize, overlap: usize) -> (r: Vec<CarvedFile>)
    ensures
        streaming_result_ok(carved_views(r@), sigs@, false),
        disjoint_all(carved_views(r@)),
        carved_from_some_stream(carved_views(r@), sigs@, false),
        final(reader).contents() == old(reader).contents(),
        final(reader).faithful() == old(reader).faithful(),
        final(reader).reliable() == old(reader).reliable(),
        final(reader).exact_inside() == old(reader).exact_inside(),
        old(reader).faithful() ==> carved_from_contents(carved_views(r@), sigs@, false, old(reader).contents()),
        reads_whole_device(*old(reader)) ==> carved_views(r@) == stream_full(sigs@, false, old(reader).contents()),
        reads_whole_device(*old(reader)) && old(reader).contents().len() <= usize::MAX ==> forall|i: int| 0 <= i < r@.len() ==>
            (#[trigger] r@[i]).offset + r@[i].size <= old(reader).contents().len()
            && (caps_hold_headers(sigs@) ==> r@[i].size <= r@[i].max_size),
        final(reader).logs_reads() == old(reader).logs_reads(),
        old(reader).logs_reads() ==> old(reader).reads().len() <= final(reader).reads().len()
            && final(reader).reads().subrange(0, old(reader).reads().len() as int) == old(reader).reads(),
        old(reader).logs_reads() && reads_whole_device(*old(reader)) ==> chunked_after(old(reader).reads(), final(reader).reads(),
            carve_chunk(chunk_size), stream_limit(old(reader).contents().len() as u64, false)),
{
    carve_stream(reader, sigs, chunk_size, false)
}

/// Streaming carve; the mode `quick` (any ASCII case) limits the scan to
/// the first 128 MiB and keeps only structurally confirmed candidates. The
/// result is what `stream_result` gives for the bytes read from offset 0
/// up to the scan limit or the first failed read; over a faithful reader
/// those are the device's bytes, and over a reader that reads the whole
/// device it is `stream_full`, each candidate inside the scan limit. The
/// chunk size sets only how much each read asks for; the overlap is not
/// used: neither changes the result.
pub fn carve_streaming_mode<R: StorageReader>(
    reader: &mut R,
    sigs: &[Signature],
    chunk_size: usize,
    overlap: usize,
    mode: &str,
) -> (r: Vec<CarvedFile>)
    ensures
        streaming_result_ok(carved_views(r@), sigs@, is_quick_mode(mode.spec_bytes())),
        disjoint_all(carved_views(r@)),
        carved_from_some_stream(carved_views(r@), sigs@, is_quick_mode(mode.spec_bytes())),
        final(reader).contents() == old(reader).contents(),
        final(reader).faithful() == old(reader).faithful(),
        final(reader).reliable() == old(reader).reliable(),
        final(reader).exact_inside() == old(reader).exact_inside(),
        old(reader).faithful() ==> carved_from_contents(carved_views(r@), sigs@, is_quick_mode(mode.spec_bytes()),
            old(reader).contents()),
        reads_whole_device(*old(reader))
            ==> carved_views(r@) == stream_full(sigs@, is_quick_mode(mode.spec_bytes()), old(reader).contents()),
        reads_whole_device(*old(reader)) && old(reader).contents().len() <= usize::MAX ==> forall|i: int| 0 <= i < r@.len() ==>
            (#[trigger] r@[i]).offset + r@[i].size
                <= stream_limit(old(reader).contents().len() as u64, is_quick_mode(mode.spec_bytes()))
            && (caps_hold_headers(sigs@) ==> r@[i].size <= r@[i].max_size),
        final(reader).logs_reads() == old(reader).logs_reads(),
        old(reader).logs_reads() ==> old(reader).reads().len() <= final(reader).reads().len()
            && final(reader).reads().subrange(0, old(reader).reads().len() as int) == old(reader).reads(),
        old(reader).logs_reads() && reads_whole_device(*old(reader)) ==> chunked_after(old(reader).reads(), final(reader).reads(),
            carve_chunk(chunk_size), stream_limit(old(reader).contents().len() as u64, is_quick_mode(mode.spec_bytes()))),
{
    let quick = eq_ignore_ascii_case_bytes(mode.as_bytes(), &[0x71u8, 0x75, 0x69, 0x63, 0x6B]);
    assert(quick == is_quick_mode(mode.spec_bytes()));
    carve_stream(reader, sigs, chunk_size, quick)
}

/// Re-reads a candidate's bytes through the reader: what the read returned
/// (exactly `size` bytes), or nothing when the read failed.
pub fn read_candidate_bytes<R: StorageReader>(reader: &mut R, candidate: &CarvedFile) -> (r: Vec<u8>)
    ensures
        r@.len() == candidate.size || r@.len() == 0,
        final(reader).contents() == old(reader).contents(),
        final(reader).faithful() == old(reader).faithful(),
        final(reader).reliable() == old(reader).reliable(),
        final(reader).exact_inside() == old(reader).exact_inside(),
        final(reader).logs_reads() == old(reader).logs_reads(),
        old(reader).logs_reads() ==> final(reader).reads() == old(reader).reads().push((candidate.offset as u64, candidate.size)),
        old(reader).faithful() && r@.len() > 0 ==> candidate.offset + candidate.size <= old(reader).contents().len()
            && r@ == old(reader).contents().subrange(candidate.offset as int, candidate.offset + candidate.size),
        reads_whole_device(*old(reader)) && candidate.offset + candidate.size <= old(reader).contents().len()
            ==> r@ == old(reader).contents().subrange(candidate.offset as int, candidate.offset + candidate.size),
{
    match reader.read_range(candidate.offset as u64, candidate.size) {
        Ok(b) => b,
        Err(_) => Vec::new(),
    }
}


/// Consecutive candidates do not overlap: each ends at or before the next
/// one starts.
pub open spec fn disjoint_in_order(s: Seq<CarvedView>) -> bool {
    forall|i: int| 0 < i < s.len() ==> (#[trigger] s[i - 1]).0 + s[i - 1].1 <= s[i].0
}

proof fn lemma_find_sub(hay: Seq<u8>, needle: Seq<u8>)
    ensures
        find_sub(hay, needle) matches Some(r) ==> 0 <= r && r + needle.len() <= hay.len(),
{
    lemma_first_occurrence_from(hay, needle, 0);
}

proof fn lemma_next_header(win: Seq<u8>, sigs: Seq<Signature>, k: int)
    ensures
        next_header(win, sigs, k) matches Some(r) ==> 0 <= r <= win.len(),
    decreases sigs.len() - k,
{
    if 0 <= k < sigs.len() {
        lemma_find_sub(win, sigs[k].header@);
        lemma_next_header(win, sigs, k + 1);
    }
}

proof fn lemma_first_match(buf: Seq<u8>, sigs: Seq<Signature>, pos: int, k: int)
    ensures
        first_match(buf, sigs, pos, k) matches Some(j) ==> 0 <= j < sigs.len()
            && has_prefix(buf.subrange(pos, buf.len() as int), sigs[j].header@),
    decreases sigs.len() - k,
{
    if 0 <= k < sigs.len() && !has_prefix(buf.subrange(pos, buf.len() as int), sigs[k].header@) {
        lemma_first_match(buf, sigs, pos, k + 1);
    }
}

proof fn lemma_candidate_end(buf: Seq<u8>, sigs: Seq<Signature>, sig: Signature, pos: int)
    requires
        0 <= pos < buf.len(),
        sig.header@.len() <= sig.max_size,
        has_prefix(buf.subrange(pos, buf.len() as int), sig.header@),
    ensures
        pos <= spec_candidate_end(buf, sigs, sig, pos).0 <= buf.len(),
{
    let ss = pos + sig.header@.len();
    let hc = min_int(pos + sig.max_size, buf.len() as int);
    lemma_next_header(buf.subrange(ss, hc), sigs, 0);
    let cap_end = match next_header(buf.subrange(ss, hc), sigs, 0) {
        Some(r) => ss + r,
        None => hc,
    };
    if let Some(f) = sig.footer {
        lemma_find_sub(buf.subrange(ss, cap_end), f@);
    }
}

proof fn lemma_carve_from(buf: Seq<u8>, sigs: Seq<Signature>, pos: int)
    requires
        carvable_from(buf, sigs, pos),
        0 <= pos,
    ensures
        disjoint_in_order(carve_from(buf, sigs, pos)),
        forall|i: int| 0 <= i < carve_from(buf, sigs, pos).len() ==> {
            &&& pos <= (#[trigger] carve_from(buf, sigs, pos)[i]).0
            &&& 0 <= carve_from(buf, sigs, pos)[i].1
            &&& carve_from(buf, sigs, pos)[i].0 + carve_from(buf, sigs, pos)[i].1 <= buf.len()
        },
    decreases buf.len() - pos,
{
    if pos < buf.len() {
        lemma_first_match(buf, sigs, pos, 0);
        match first_match(buf, sigs, pos, 0) {
            None => {
                lemma_carve_from(buf, sigs, pos + 1);
            },
            Some(j) => {
                let sig = sigs[j];
                lemma_candidate_end(buf, sigs, sig, pos);
                let (end, complete) = spec_candidate_end(buf, sigs, sig, pos);
                let next = if end > pos + 1 { end } else { pos + 1 };
                let nx = min_int(next, buf.len() as int);
                lemma_carve_from(buf, sigs, nx);
                let tail = carve_from(buf, sigs, nx);
                let head = (pos, end - pos, sig.file_type@, sig.ext@, complete, sig.max_size as int, 95int);
                let all = carve_from(buf, sigs, pos);
                assert(all == seq![head] + tail);
                if next > buf.len() {
                    assert(tail.len() == 0);
                }
                assert forall|i: int| 0 < i < all.len() implies (#[trigger] all[i - 1]).0 + all[i - 1].1 <= all[i].0 by {
                    if i == 1 {
                        assert(all[0] == head);
                        assert(all[1] == tail[0]);
                    } else {
                        assert(all[i - 1] == tail[i - 2]);
                        assert(all[i] == tail[i - 1]);
                    }
                }
            },
        }
    }
}

/// Single-pass carving yields candidates in increasing offset order, none
/// overlapping the next, all inside the buffer.
pub proof fn law_carved_candidates_disjoint(buf: Seq<u8>, sigs: Seq<Signature>)
    requires
        carvable_from(buf, sigs, 0),
    ensures
        disjoint_in_order(carve_from(buf, sigs, 0)),
        forall|i: int| 0 <= i < carve_from(buf, sigs, 0).len()
            ==> (#[trigger] carve_from(buf, sigs, 0)[i]).0 + carve_from(buf, sigs, 0)[i].1 <= buf.len(),
{
    lemma_carve_from(buf, sigs, 0);
}

/// Candidate `v` is what the first signature whose header starts at its
/// offset carves there: its type, extension and cap are that signature's;
/// it spans at least the header and at most the cap; and when it is
/// complete it ends with the signature's footer.
pub open spec fn carved_by_first_signature(buf: Seq<u8>, sigs: Seq<Signature>, v: CarvedView) -> bool {
    first_match(buf, sigs, v.0, 0) matches Some(j) && {
        let sig = sigs[j];
        &&& 0 <= j < sigs.len()
        &&& has_prefix(buf.subrange(v.0, buf.len() as int), sig.header@)
        &&& v.2 == sig.file_type@
        &&& v.3 == sig.ext@
        &&& v.5 == sig.max_size
        &&& sig.header@.len() <= v.1 <= sig.max_size
        &&& v.4 ==> (sig.footer matches Some(f) && f@.len() <= v.1
            && buf.subrange(v.0 + v.1 - f@.len(), v.0 + v.1) == f@)
    }
}

proof fn lemma_candidate_end_bounds(buf: Seq<u8>, sigs: Seq<Signature>, sig: Signature, pos: int)
    requires
        0 <= pos < buf.len(),
        sig.header@.len() <= sig.max_size,
        has_prefix(buf.subrange(pos, buf.len() as int), sig.header@),
    ensures
        ({
            let (end, complete) = spec_candidate_end(buf, sigs, sig, pos);
            &&& pos + sig.header@.len() <= end <= pos + sig.max_size
            &&& end <= buf.len()
            &&& complete ==> (sig.footer matches Some(f) && pos + sig.header@.len() + f@.len() <= end
                && buf.subrange(end - f@.len(), end) == f@)
        }),
{
    let ss = pos + sig.header@.len();
    let hc = min_int(pos + sig.max_size, buf.len() as int);
    lemma_next_header(buf.subrange(ss, hc), sigs, 0);
    let cap_end = match next_header(buf.subrange(ss, hc), sigs, 0) {
        Some(r) => ss + r,
        None => hc,
    };
    if let Some(f) = sig.footer {
        let hay = buf.subrange(ss, cap_end);
        lemma_find_sub(hay, f@);
        if let Some(r) = find_sub(hay, f@) {
            lemma_first_occurrence_from(hay, f@, 0);
            assert(hay.subrange(r, r + f@.len()) == f@);
            assert(buf.subrange(ss + r, ss + r + f@.len()) =~= hay.subrange(r, r + f@.len()));
        }
    }
}

proof fn lemma_carve_items(buf: Seq<u8>, sigs: Seq<Signature>, pos: int)
    requires
        carvable_from(buf, sigs, pos),
        0 <= pos,
    ensures
        forall|i: int| 0 <= i < carve_from(buf, sigs, pos).len()
            ==> carved_by_first_signature(buf, sigs, #[trigger] carve_from(buf, sigs, pos)[i]),
    decreases buf.len() - pos,
{
    if pos < buf.len() {
        lemma_first_match(buf, sigs, pos, 0);
        match first_match(buf, sigs, pos, 0) {
            None => {
                lemma_carve_items(buf, sigs, pos + 1);
                assert(carve_from(buf, sigs, pos) == carve_from(buf, sigs, pos + 1));
            },
            Some(j) => {
                let sig = sigs[j];
                lemma_candidate_end_bounds(buf, sigs, sig, pos);
                let (end, complete) = spec_candidate_end(buf, sigs, sig, pos);
                let next = if end > pos + 1 { end } else { pos + 1 };
                let nx = min_int(next, buf.len() as int);
                lemma_carve_items(buf, sigs, nx);
                let tail = carve_from(buf, sigs, nx);
                let head = (pos, end - pos, sig.file_type@, sig.ext@, complete, sig.max_size as int, 95int);
                let all = carve_from(buf, sigs, pos);
                assert(all == seq![head] + tail);
                assert(carved_by_first_signature(buf, sigs, head));
                assert forall|i: int| 0 <= i < all.len() implies carved_by_first_signature(buf, sigs, #[trigger] all[i]) by {
                    if i == 0 {
                        assert(all[0] == head);
                    } else {
                        assert(all[i] == tail[i - 1]);
                    }
                }
            },
        }
    }
}

/// Every candidate of single-pass carving is carved by the first signature
/// whose header starts at its offset: it has that signature's type,
/// extension and cap, spans at least the header and at most the cap, and,
/// when complete, ends with the signature's footer.
pub proof fn law_carved_candidates_match_signatures(buf: Seq<u8>, sigs: Seq<Signature>)
    requires
        carvable_from(buf, sigs, 0),
    ensures
        forall|i: int| 0 <= i < carve_from(buf, sigs, 0).len()
            ==> carved_by_first_signature(buf, sigs, #[trigger] carve_from(buf, sigs, 0)[i]),
{
    lemma_carve_items(buf, sigs, 0);
}


/// The RIFF parser ends a file at its 32-bit little-endian size field
/// (bytes 4 to 7, all four of them) plus eight, saturating at the largest
/// size: a WAV or AVI over 64 KiB ends where its header says.
pub proof fn law_riff_end_is_the_size_field_plus_eight(d: Seq<u8>)
    ensures
        spec_parser_kind("riff"@) == Some(ParserKind::Riff),
        d.len() >= 8 ==> spec_known_end(ParserKind::Riff, d) == Some(
            if d[4] + 256 * d[5] + 65536 * d[6] + 16777216 * d[7] + 8 > usize::MAX {
                usize::MAX as int
            } else {
                d[4] + 256 * d[5] + 65536 * d[6] + 16777216 * d[7] + 8
            }),
        d.len() < 8 ==> spec_known_end(ParserKind::Riff, d) is None,
{
}
} // verus!
