//! NTFS metadata recovery through bounded reads: the boot sector, MFT
//! records one at a time, their attribute lists and data-run encodings.
//!
//! Values read from disk can describe layouts whose arithmetic does not fit
//! the machine integers (a run offset past `i64`, a cluster address whose
//! byte offset passes `u64::MAX`). Such a value ends the walk it occurs in:
//! the run list, attribute list or scan stops there and keeps what it had.

use vstd::prelude::*;
use crate::bytes::{
    eq_at, le16, le32, le64, le_n, lemma_le_n_bound, lemma_le_n_top, lemma_pow256_8,
    lemma_pow256_monotonic, pow256, pow256_u64, read_le16, read_le32, read_le64, read_le_n,
    sat_mul, saturating_mul,
};
use crate::storage::{read_all_from_contents, read_from_contents, invalid_data, materialised, read_run_list, reads_whole_device, runs_inside, StorageReader};
use crate::text::{utf16_lossy, utf16_to_string_lossy};

verus! {

/// Geometry of an NTFS volume, from its boot sector.
pub struct NtfsLayout {
    pub bytes_per_sector: u32,
    pub sectors_per_cluster: u32,
    pub cluster_size: u32,
    pub mft_offset: u64,
    pub mft_record_size: u32,
}

/// `2^k`.
pub open spec fn two_pow(k: nat) -> nat
    decreases k,
{
    if k == 0 {
        1
    } else {
        2 * two_pow((k - 1) as nat)
    }
}

/// Bytes per cluster: bytes per sector (offset 11) times sectors per cluster (offset 13).
pub open spec fn ntfs_cluster_size(b: Seq<u8>) -> nat {
    (le16(b, 11) * b[13]) as nat
}

/// The MFT record size: a negative "clusters per record" byte (offset 64)
/// encodes `2^-v` bytes, a non-negative one that many clusters.
pub open spec fn ntfs_record_size(b: Seq<u8>) -> nat {
    if b[64] >= 128 {
        two_pow((256 - b[64]) as nat)
    } else {
        (b[64] * ntfs_cluster_size(b)) as nat
    }
}

/// A boot sector whose layout arithmetic fits: a record-size exponent below
/// 32 and an MFT byte offset (the LCN at offset 48 times the cluster size)
/// within `u64`.
pub open spec fn ntfs_boot_ok(b: Seq<u8>) -> bool {
    &&& b.len() >= 65
    &&& (b[64] >= 128 ==> 256 - b[64] < 32)
    &&& le64(b, 48) * ntfs_cluster_size(b) <= u64::MAX
}

pub open spec fn spec_ntfs_layout(b: Seq<u8>) -> NtfsLayout {
    NtfsLayout {
        bytes_per_sector: le16(b, 11) as u32,
        sectors_per_cluster: b[13] as u32,
        cluster_size: ntfs_cluster_size(b) as u32,
        mft_offset: (le64(b, 48) * ntfs_cluster_size(b)) as u64,
        mft_record_size: ntfs_record_size(b) as u32,
    }
}

proof fn lemma_two_pow_bound(k: nat)
    requires
        k < 32,
    ensures
        two_pow(k) <= 0x8000_0000,
    decreases k,
{
    if k > 0 {
        lemma_two_pow_bound((k - 1) as nat);
    } else {
    }
    if k == 31 {
        reveal_with_fuel(two_pow, 32);
    } else if k > 0 {
        lemma_two_pow_mono((k - 1) as nat, 30);
        reveal_with_fuel(two_pow, 32);
    }
}

proof fn lemma_two_pow_mono(a: nat, b: nat)
    requires
        a <= b,
    ensures
        two_pow(a) <= two_pow(b),
    decreases b,
{
    if a < b {
        lemma_two_pow_mono(a, (b - 1) as nat);
    }
}

fn two_pow_u32(k: u32) -> (r: u32)
    requires
        k < 32,
    ensures
        r == two_pow(k as nat),
{
    let mut r: u32 = 1;
    let mut i: u32 = 0;
    while i < k
        invariant
            i <= k < 32,
            r == two_pow(i as nat),
        decreases k - i,
    {
        proof {
            lemma_two_pow_mono(i as nat, 30);
            reveal_with_fuel(two_pow, 31);
        }
        r = r * 2;
        i = i + 1;
    }
    r
}

impl NtfsLayout {
    /// Reads the volume geometry out of a boot sector.
    pub fn parse(boot_sector: &[u8]) -> (r: NtfsLayout)
        requires
            ntfs_boot_ok(boot_sector@),
        ensures
            r == spec_ntfs_layout(boot_sector@),
    {
        let b = boot_sector;
        let bytes_per_sector = read_le16(b, 11) as u32;
        let sectors_per_cluster = b[13] as u32;
        assert(bytes_per_sector * sectors_per_cluster <= 65535 * 255) by (nonlinear_arith)
            requires
                bytes_per_sector <= 65535,
                sectors_per_cluster <= 255,
        ;
        let cluster_size = bytes_per_sector * sectors_per_cluster;
        let mft_lcn = read_le64(b, 48);
        let cpmr = b[64];
        let mft_record_size = if cpmr >= 128 {
            two_pow_u32(256 - cpmr as u32)
        } else {
            assert(cpmr as u32 * cluster_size <= 127 * (65535 * 255)) by (nonlinear_arith)
                requires
                    cpmr <= 127,
                    cluster_size <= 65535 * 255,
            ;
            cpmr as u32 * cluster_size
        };
        let mft_offset = mft_lcn * (cluster_size as u64);
        NtfsLayout {
            bytes_per_sector,
            sectors_per_cluster,
            cluster_size,
            mft_offset,
            mft_record_size,
        }
    }
}

/// Whether a boot sector satisfies `ntfs_boot_ok`.
pub fn ntfs_boot_sector_usable(b: &[u8]) -> (r: bool)
    ensures
        r == ntfs_boot_ok(b@),
{
    if b.len() < 65 {
        return false;
    }
    if b[64] >= 128 && 256 - (b[64] as u32) >= 32 {
        return false;
    }
    let bps = read_le16(b, 11) as u64;
    let spc = b[13] as u64;
    assert(bps * spc <= 65535 * 255) by (nonlinear_arith)
        requires
            bps <= 65535,
            spc <= 255,
    ;
    let cluster = bps * spc;
    let lcn = read_le64(b, 48);
    lcn.checked_mul(cluster).is_some()
}

/// The OEM ID at bytes 3..11 reads "NTFS    ".
pub open spec fn spec_looks_like_ntfs(b: Seq<u8>) -> bool {
    b.len() >= 11 && b.subrange(3, 11) == seq![0x4Eu8, 0x54, 0x46, 0x53, 0x20, 0x20, 0x20, 0x20]
}

/// The cheap OEM-ID check used by filesystem detection.
pub fn looks_like_ntfs(boot_sector: &[u8]) -> (r: bool)
    ensures
        r == spec_looks_like_ntfs(boot_sector@),
{
    boot_sector.len() >= 11 && eq_at(boot_sector, 3, &[0x4Eu8, 0x54, 0x46, 0x53, 0x20, 0x20, 0x20, 0x20])
}

/// The update-sequence (fixup) array of a multi-sector record is intact:
/// the array lies inside the record, has at least two entries, and the last
/// two bytes of every covered sector equal the update sequence number. A
/// sector whose end would fall before byte 2 of the record counts as
/// damaged.
pub open spec fn spec_validate_fixup(r: Seq<u8>, bps: int) -> bool {
    let uo = le16(r, 4) as int;
    let uc = le16(r, 6) as int;
    &&& r.len() >= 8
    &&& bps > 0
    &&& uo >= 8
    &&& uo + uc * 2 <= r.len()
    &&& uc >= 2
    &&& forall|i: int| 1 <= i < uc ==> {
        &&& i * bps >= 2
        &&& #[trigger] (i * bps) <= r.len()
        &&& r[i * bps - 2] == r[uo]
        &&& r[i * bps - 1] == r[uo + 1]
    }
}

fn validate_fixup(record: &[u8], bytes_per_sector: usize) -> (r: bool)
    ensures
        r == spec_validate_fixup(record@, bytes_per_sector as int),
{
    if record.len() < 8 || bytes_per_sector == 0 {
        return false;
    }
    let usa_offset = read_le16(record, 4) as usize;
    let usa_count = read_le16(record, 6) as usize;
    if usa_offset < 8 || usa_offset + usa_count * 2 > record.len() || usa_count < 2 {
        return false;
    }
    let s0 = record[usa_offset];
    let s1 = record[usa_offset + 1];
    let mut i: usize = 1;
    while i < usa_count
        invariant
            record@.len() >= 8,
            bytes_per_sector > 0,
            usa_offset == le16(record@, 4),
            usa_count == le16(record@, 6),
            usa_offset >= 8,
            usa_offset + usa_count * 2 <= record@.len(),
            usa_count >= 2,
            s0 == record@[usa_offset as int],
            s1 == record@[usa_offset + 1],
            1 <= i <= usa_count,
            forall|j: int| 1 <= j < i ==> {
                &&& j * bytes_per_sector >= 2
                &&& #[trigger] (j * bytes_per_sector) <= record@.len()
                &&& record@[j * bytes_per_sector - 2] == s0
                &&& record@[j * bytes_per_sector - 1] == s1
            },
        decreases usa_count - i,
    {
        let prod = (i as u64).checked_mul(bytes_per_sector as u64);
        match prod {
            None => {
                assert(record.len() <= usize::MAX);
                assert(usize::MAX <= u64::MAX);
                assert(!(i * bytes_per_sector <= record@.len()));
                return false;
            },
            Some(p) => {
                if p < 2 || p > record.len() as u64 {
                    return false;
                }
                let e = p as usize;
                if record[e - 2] != s0 || record[e - 1] != s1 {
                    return false;
                }
            },
        }
        i = i + 1;
    }
    true
}

/// The byte offset that virtual MFT offset `vo` maps to through a run list,
/// walking runs from `k` with `vcn` bytes already covered (all sums and
/// products saturating at `u64::MAX`).
pub open spec fn spec_map_from(runs: Seq<(i64, u64)>, cs: u64, vo: u64, k: int, vcn: u64) -> Option<u64>
    decreases runs.len() - k,
{
    if k < 0 || k >= runs.len() {
        None
    } else {
        let run_bytes = sat_mul(runs[k].1, cs);
        if vo < vcn.saturating_add(run_bytes) {
            if runs[k].0 < 0 {
                None
            } else {
                Some(sat_mul(runs[k].0 as u64, cs).saturating_add((vo - vcn) as u64))
            }
        } else {
            spec_map_from(runs, cs, vo, k + 1, vcn.saturating_add(run_bytes))
        }
    }
}

/// Physical byte offset of virtual offset `virtual_offset` in a data-run list.
pub fn map_runlist_offset(runs: &[(i64, u64)], cluster_size: u64, virtual_offset: u64) -> (r: Option<u64>)
    ensures
        r == spec_map_from(runs@, cluster_size, virtual_offset, 0, 0),
{
    let mut vcn_bytes: u64 = 0;
    let mut k: usize = 0;
    while k < runs.len()
        invariant
            k <= runs@.len(),
            vcn_bytes <= virtual_offset,
            spec_map_from(runs@, cluster_size, virtual_offset, 0, 0)
                == spec_map_from(runs@, cluster_size, virtual_offset, k as int, vcn_bytes),
        decreases runs@.len() - k,
    {
        let (lcn, clusters) = runs[k];
        let run_bytes = saturating_mul(clusters, cluster_size);
        if virtual_offset < vcn_bytes.saturating_add(run_bytes) {
            if lcn < 0 {
                return None;
            }
            return Some(saturating_mul(lcn as u64, cluster_size).saturating_add(virtual_offset - vcn_bytes));
        }
        vcn_bytes = vcn_bytes.saturating_add(run_bytes);
        k = k + 1;
    }
    None
}

/// The signed run offset of `n` bytes at `p`: little-endian, sign-extended
/// from its top byte.
pub open spec fn run_offset(b: Seq<u8>, p: int, n: nat) -> int {
    if n > 0 && b[p + n - 1] >= 0x80 {
        le_n(b, p, n) - pow256(n)
    } else {
        le_n(b, p, n) as int
    }
}

/// Decodes an NTFS mapping-pairs array from position `pos`, the previous
/// run's LCN being `prev`: each entry is a header byte (low nibble = size of
/// the length field, high nibble = size of the signed LCN delta), the length
/// and the delta; a zero header ends the list. Fields wider than eight bytes,
/// an eight-byte negative delta, or an LCN outside `i64` end the list.
pub open spec fn spec_decode_runs(b: Seq<u8>, pos: int, prev: int) -> Seq<(i64, u64)>
    decreases b.len() - pos,
{
    if pos < 0 || pos >= b.len() || b[pos] == 0 {
        Seq::empty()
    } else {
        let ls = (b[pos] % 16) as nat;
        let os = (b[pos] / 16) as nat;
        let p = pos + 1;
        if p + ls + os > b.len() {
            Seq::empty()
        } else if ls > 8 || os > 8 || (os == 8 && b[p + ls + 7] >= 0x80) {
            Seq::empty()
        } else {
            let lcn = prev + run_offset(b, p + ls, os);
            if lcn < i64::MIN || lcn > i64::MAX {
                Seq::empty()
            } else {
                seq![(lcn as i64, le_n(b, p, ls) as u64)] + spec_decode_runs(b, p + ls + os, lcn)
            }
        }
    }
}

/// Decodes a data-run list into (LCN, cluster count) pairs.
pub fn decode_data_runs(bytes: &[u8]) -> (r: Vec<(i64, u64)>)
    ensures
        r@ == spec_decode_runs(bytes@, 0, 0),
{
    let mut runs: Vec<(i64, u64)> = Vec::new();
    let mut pos: usize = 0;
    let mut prev_lcn: i64 = 0;
    while pos < bytes.len()
        invariant
            pos <= bytes@.len(),
            runs@ + spec_decode_runs(bytes@, pos as int, prev_lcn as int) == spec_decode_runs(bytes@, 0, 0),
        ensures
            runs@ == spec_decode_runs(bytes@, 0, 0),
        decreases bytes@.len() - pos,
    {
        let header = bytes[pos];
        if header == 0 {
            break;
        }
        let length_size = (header % 16) as usize;
        let offset_size = (header / 16) as usize;
        let p = pos + 1;
        if length_size + offset_size > bytes.len() - p {
            break;
        }
        if length_size > 8 || offset_size > 8 || (offset_size == 8 && bytes[p + length_size + 7] >= 0x80) {
            break;
        }
        let length = read_le_n(bytes, p, length_size);
        let raw = read_le_n(bytes, p + length_size, offset_size);
        proof {
            lemma_le_n_bound(bytes@, p + length_size, offset_size as nat);
            lemma_pow256_8();
            lemma_pow256_monotonic(offset_size as nat, 8);
            if offset_size < 8 {
                lemma_pow256_monotonic(offset_size as nat, 7);
            }
        }
        let offset: i64 = if offset_size > 0 && bytes[p + length_size + offset_size - 1] >= 0x80 {
            proof {
                lemma_pow256_monotonic(offset_size as nat, 7);
            }
            let m = pow256_u64(offset_size);
            raw as i64 - m as i64
        } else {
            if offset_size == 8 {
                proof {
                    lemma_le_n_top(bytes@, p + length_size, 7);
                    lemma_le_n_bound(bytes@, p + length_size, 7);
                }
                assert(raw < 0x8000_0000_0000_0000);
            }
            raw as i64
        };
        let lcn = match prev_lcn.checked_add(offset) {
            Some(v) => v,
            None => break,
        };
        let ghost old_runs = runs@;
        assert(offset == run_offset(bytes@, p + length_size, offset_size as nat));
        assert(spec_decode_runs(bytes@, pos as int, prev_lcn as int) == seq![(lcn, length)]
            + spec_decode_runs(bytes@, (p + length_size + offset_size) as int, lcn as int));
        runs.push((lcn, length));
        proof {
            assert(runs@ + spec_decode_runs(bytes@, (p + length_size + offset_size) as int, lcn as int)
                =~= old_runs + spec_decode_runs(bytes@, pos as int, prev_lcn as int));
        }
        prev_lcn = lcn;
        pos = p + length_size + offset_size;
    }
    runs
}

/// Little-endian UTF-16 code units of a byte string (a trailing odd byte is
/// dropped).
pub open spec fn le_units(b: Seq<u8>) -> Seq<u16> {
    Seq::new(b.len() / 2, |i: int| le16(b, 2 * i) as u16)
}

fn to_le_units(b: &[u8]) -> (r: Vec<u16>)
    ensures
        r@ == le_units(b@),
{
    let mut v: Vec<u16> = Vec::new();
    let n = b.len() / 2;
    let mut i: usize = 0;
    while i < n
        invariant
            n == b.len() / 2,
            i <= n,
            v@ == le_units(b@).subrange(0, i as int),
        decreases n - i,
    {
        v.push(read_le16(b, 2 * i));
        i = i + 1;
    }
    assert(v@ =~= le_units(b@));
    v
}

/// Decodes UTF-16LE bytes, replacing unpaired surrogates by U+FFFD.
pub fn utf16le_to_string(bytes: &[u8]) -> (s: String)
    ensures
        s@ == utf16_lossy(le_units(bytes@)),
{
    let units = to_le_units(bytes);
    utf16_to_string_lossy(units.as_slice())
}

/// What the attribute walk has gathered: the file name, the logical size,
/// resident data and the data-run list.
pub type AttrState = (Option<Seq<char>>, u64, Option<Seq<u8>>, Seq<(i64, u64)>);

/// The $FILE_NAME content of the resident attribute at `pos`, when it lies
/// inside the record and is at least 66 bytes long: the decoded name (its
/// length in characters at content offset 64, clipped to the content) and
/// the namespace byte (offset 65).
pub open spec fn spec_file_name(r: Seq<u8>, pos: int) -> Option<(Seq<char>, u8)> {
    let cl = le32(r, pos + 16) as int;
    let cs = pos + le16(r, pos + 20);
    if cs + cl <= r.len() && cl >= 66 {
        let c = r.subrange(cs, cs + cl);
        let want = c[64] * 2;
        let take = if want < cl - 66 { want } else { cl - 66 };
        Some((utf16_lossy(le_units(c.subrange(66, 66 + take))), c[65]))
    } else {
        None
    }
}

/// One step of the attribute walk at `pos`, or `None` where the walk ends:
/// at the end marker 0xFFFFFFFF, at a zero or overlong attribute length,
/// or where a header field the attribute needs lies outside the record.
pub open spec fn spec_attr_step(r: Seq<u8>, pos: int, st: AttrState) -> Option<(int, AttrState)> {
    let t = le32(r, pos);
    let al = le32(r, pos + 4) as int;
    if pos + 8 > r.len() || t == 0xFFFF_FFFF || al == 0 || pos + al > r.len() || pos + 8 >= r.len() {
        None
    } else {
        let nr = r[pos + 8] != 0;
        if (t == 0x30 && !nr) || (t == 0x80 && !nr) {
            if pos + 22 > r.len() {
                None
            } else if t == 0x30 {
                let name = match spec_file_name(r, pos) {
                    Some((n, ns)) => if st.0 is None || ns != 2 { Some(n) } else { st.0 },
                    None => st.0,
                };
                Some((pos + al, (name, st.1, st.2, st.3)))
            } else {
                let cl = le32(r, pos + 16) as int;
                let cs = pos + le16(r, pos + 20);
                if cs + cl <= r.len() {
                    Some((pos + al, (st.0, cl as u64, Some(r.subrange(cs, cs + cl)), st.3)))
                } else {
                    Some((pos + al, st))
                }
            }
        } else if t == 0x80 {
            if pos + 56 > r.len() {
                None
            } else {
                let rs = pos + le16(r, pos + 32);
                let re = pos + al;
                let runs = if rs < re && re <= r.len() {
                    spec_decode_runs(r.subrange(rs, re), 0, 0)
                } else {
                    st.3
                };
                Some((pos + al, (st.0, le64(r, pos + 48) as u64, st.2, runs)))
            }
        } else {
            Some((pos + al, st))
        }
    }
}

/// The attribute walk from `pos` with state `st`.
pub open spec fn spec_attr_walk(r: Seq<u8>, pos: int, st: AttrState) -> AttrState
    decreases r.len() - pos,
{
    match spec_attr_step(r, pos, st) {
        Some((next, st2)) => if next > pos {
            spec_attr_walk(r, next, st2)
        } else {
            st2
        },
        None => st,
    }
}

/// The record's attributes from `start`: (name, logical size, resident data,
/// data runs), present when a $FILE_NAME attribute supplied a name. A later
/// name replaces an earlier one unless it is a DOS (namespace 2) name.
pub open spec fn spec_parse_attributes(r: Seq<u8>, start: int) -> Option<(Seq<char>, u64, Option<Seq<u8>>, Seq<(i64, u64)>)> {
    let st = spec_attr_walk(r, start, (None, 0, None, Seq::empty()));
    match st.0 {
        Some(n) => Some((n, st.1, st.2, st.3)),
        None => None,
    }
}

pub open spec fn opt_bytes_view(o: Option<Vec<u8>>) -> Option<Seq<u8>> {
    match o {
        Some(v) => Some(v@),
        None => None,
    }
}

pub open spec fn opt_string_view(o: Option<String>) -> Option<Seq<char>> {
    match o {
        Some(v) => Some(v@),
        None => None,
    }
}

fn file_name_content(r: &[u8], pos: usize) -> (res: Option<(String, u8)>)
    requires
        pos + 22 <= r.len(),
    ensures
        match res {
            Some((n, ns)) => spec_file_name(r@, pos as int) == Some((n@, ns)),
            None => spec_file_name(r@, pos as int) is None,
        },
{
    let cl = read_le32(r, pos + 16) as u128;
    let cs = pos as u128 + read_le16(r, pos + 20) as u128;
    if cs + cl <= r.len() as u128 && cl >= 66 {
        let cs = cs as usize;
        let cl = cl as usize;
        let c = &r[cs..cs + cl];
        let want = c[64] as usize * 2;
        let take = if want < cl - 66 { want } else { cl - 66 };
        let name = utf16le_to_string(&c[66..66 + take]);
        Some((name, c[65]))
    } else {
        None
    }
}

/// Walks the attribute list of an MFT record from byte `start`.
pub fn parse_attributes(record: &[u8], start: usize) -> (res: Option<(String, u64, Option<Vec<u8>>, Vec<(i64, u64)>)>)
    ensures
        match res {
            Some((n, l, d, runs)) => spec_parse_attributes(record@, start as int) == Some(
                (n@, l, opt_bytes_view(d), runs@),
            ),
            None => spec_parse_attributes(record@, start as int) is None,
        },
{
    let r = record;
    let mut pos: usize = start;
    let mut name: Option<String> = None;
    let mut logical_size: u64 = 0;
    let mut resident_data: Option<Vec<u8>> = None;
    let mut data_runs: Vec<(i64, u64)> = Vec::new();
    let ghost init: AttrState = (None, 0, None, Seq::empty());
    loop
        invariant
            spec_attr_walk(r@, start as int, init) == spec_attr_walk(
                r@,
                pos as int,
                (opt_string_view(name), logical_size, opt_bytes_view(resident_data), data_runs@),
            ),
        ensures
            spec_attr_walk(r@, start as int, init) == (
                opt_string_view(name),
                logical_size,
                opt_bytes_view(resident_data),
                data_runs@,
            ),
        decreases r@.len() - pos,
    {
        let ghost st: AttrState = (opt_string_view(name), logical_size, opt_bytes_view(resident_data), data_runs@);
        if pos > r.len() || r.len() - pos < 8 {
            break;
        }
        let t = read_le32(r, pos);
        let al = read_le32(r, pos + 4) as usize;
        if t == 0xFFFF_FFFF || al == 0 || al > r.len() - pos || pos + 8 >= r.len() {
            break;
        }
        let nr = r[pos + 8] != 0;
        if (t == 0x30 && !nr) || (t == 0x80 && !nr) {
            if r.len() - pos < 22 {
                break;
            }
            if t == 0x30 {
                match file_name_content(r, pos) {
                    Some((n, ns)) => {
                        if name.is_none() || ns != 2 {
                            name = Some(n);
                        }
                    },
                    None => {},
                }
            } else {
                let cl = read_le32(r, pos + 16) as u128;
                let cs = pos as u128 + read_le16(r, pos + 20) as u128;
                if cs + cl <= r.len() as u128 {
                    let cs = cs as usize;
                    let cl = cl as usize;
                    resident_data = Some(vstd::slice::slice_to_vec(&r[cs..cs + cl]));
                    logical_size = cl as u64;
                }
            }
        } else if t == 0x80 {
            if r.len() - pos < 56 {
                break;
            }
            logical_size = read_le64(r, pos + 48);
            let mpo = read_le16(r, pos + 32) as usize;
            let re = pos + al;
            if mpo < al {
                let rs = pos + mpo;
                data_runs = decode_data_runs(&r[rs..re]);
            }
        }
        assert(spec_attr_step(r@, pos as int, st) == Some(
            ((pos + al) as int, (opt_string_view(name), logical_size, opt_bytes_view(resident_data), data_runs@)),
        ));
        pos = pos + al;
    }
    match name {
        Some(n) => Some((n, logical_size, resident_data, data_runs)),
        None => None,
    }
}

/// Reads the boot sector (the first 512 bytes) and parses its geometry.
/// A boot sector whose layout arithmetic does not fit (see `ntfs_boot_ok`)
/// is reported as invalid data.
pub fn parse_boot_sector<R: StorageReader>(reader: &mut R) -> (r: std::io::Result<NtfsLayout>)
    ensures
        r matches Ok(l) ==> exists|b: Seq<u8>|
            b.len() == 512 && ntfs_boot_ok(b) && l == #[trigger] spec_ntfs_layout(b),
        final(reader).contents() == old(reader).contents(),
        final(reader).faithful() == old(reader).faithful(),
        final(reader).reliable() == old(reader).reliable(),
        final(reader).exact_inside() == old(reader).exact_inside(),
        final(reader).logs_reads() == old(reader).logs_reads(),
        old(reader).logs_reads() ==> final(reader).reads() == old(reader).reads().push((0u64, 512usize)),
        old(reader).faithful() ==> (r matches Ok(l) ==> 512 <= old(reader).contents().len()
            && ntfs_boot_ok(old(reader).contents().subrange(0, 512))
            && l == spec_ntfs_layout(old(reader).contents().subrange(0, 512))),
        reads_whole_device(*old(reader)) && 512 <= old(reader).contents().len()
            ==> (r is Ok <==> ntfs_boot_ok(old(reader).contents().subrange(0, 512)))
                && (r matches Ok(l) ==> l == spec_ntfs_layout(old(reader).contents().subrange(0, 512))),
{
    let boot = reader.read_range(0, 512)?;
    if !ntfs_boot_sector_usable(boot.as_slice()) {
        return Err(invalid_data("NTFS boot sector describes an unusable layout"));
    }
    let l = NtfsLayout::parse(boot.as_slice());
    assert(boot@.len() == 512 && ntfs_boot_ok(boot@) && l == spec_ntfs_layout(boot@));
    Ok(l)
}

/// A deleted file or directory found in the MFT.
pub struct NtfsDeletedRecord {
    pub mft_record_index: u64,
    pub name: String,
    pub logical_size: u64,
    pub is_directory: bool,
    pub data_runs: Vec<(i64, u64)>,
    pub resident_data: Option<Vec<u8>>,
}

/// (index, name, logical size, is directory, data runs, resident data).
pub type NtfsDeletedView = (u64, Seq<char>, u64, bool, Seq<(i64, u64)>, Option<Seq<u8>>);

impl View for NtfsDeletedRecord {
    type V = NtfsDeletedView;

    open spec fn view(&self) -> NtfsDeletedView {
        (
            self.mft_record_index,
            self.name@,
            self.logical_size,
            self.is_directory,
            self.data_runs@,
            opt_bytes_view(self.resident_data),
        )
    }
}

/// The FILE record flags at offset 22.
pub open spec fn record_flags(r: Seq<u8>) -> u16 {
    le16(r, 22) as u16
}

/// What an MFT record at `index` yields: nothing unless it is at least 24
/// bytes, starts with "FILE", (when `check_fixup`) has an intact fixup
/// array, is not in use (flag bit 0 clear) and carries a file name.
pub open spec fn spec_deleted_record(index: u64, r: Seq<u8>, bps: int, check_fixup: bool) -> Option<NtfsDeletedView> {
    if r.len() < 24 || r.subrange(0, 4) != seq![0x46u8, 0x49, 0x4C, 0x45] || (check_fixup
        && !spec_validate_fixup(r, bps)) || record_flags(r) & 1 != 0 {
        None
    } else {
        match spec_parse_attributes(r, le16(r, 20) as int) {
            Some((n, l, d, runs)) => Some((index, n, l, record_flags(r) & 2 != 0, runs, d)),
            None => None,
        }
    }
}

/// Interprets one MFT record read at position `index` of the MFT.
pub fn deleted_record_from(index: u64, record: &[u8], bytes_per_sector: u32, check_fixup: bool) -> (res: Option<NtfsDeletedRecord>)
    ensures
        match res {
            Some(d) => spec_deleted_record(index, record@, bytes_per_sector as int, check_fixup) == Some(d@),
            None => spec_deleted_record(index, record@, bytes_per_sector as int, check_fixup) is None,
        },
{
    if record.len() < 24 || !eq_at(record, 0, &[0x46u8, 0x49, 0x4C, 0x45]) || (check_fixup
        && !validate_fixup(record, bytes_per_sector as usize)) {
        return None;
    }
    let flags = read_le16(record, 22);
    if flags & 1 != 0 {
        return None;
    }
    let attr_offset = read_le16(record, 20) as usize;
    match parse_attributes(record, attr_offset) {
        Some((name, logical_size, resident_data, data_runs)) => Some(
            NtfsDeletedRecord {
                mft_record_index: index,
                name,
                logical_size,
                is_directory: flags & 2 != 0,
                data_runs,
                resident_data,
            },
        ),
        None => None,
    }
}

/// The $MFT's own size and data runs, from record 0: present when its fixup
/// array is intact and its attributes name a file.
pub open spec fn spec_mft_self(r: Seq<u8>, bps: int) -> Option<(u64, Seq<(i64, u64)>)> {
    if !spec_validate_fixup(r, bps) || r.len() < 22 {
        None
    } else {
        match spec_parse_attributes(r, le16(r, 20) as int) {
            Some((_n, size, _d, runs)) => Some((size, runs)),
            None => None,
        }
    }
}

/// The $MFT's own size and data runs, read from record 0 (see `spec_mft_self`).
pub fn mft_self_runs(record0: &[u8], bytes_per_sector: u32) -> (res: Option<(u64, Vec<(i64, u64)>)>)
    ensures
        match res {
            Some((size, runs)) => spec_mft_self(record0@, bytes_per_sector as int) == Some((size, runs@)),
            None => spec_mft_self(record0@, bytes_per_sector as int) is None,
        },
{
    if !validate_fixup(record0, bytes_per_sector as usize) || record0.len() < 22 {
        return None;
    }
    match parse_attributes(record0, read_le16(record0, 20) as usize) {
        Some((_n, size, _d, runs)) => Some((size, runs)),
        None => None,
    }
}

/// Every element came from a record of the layout's record size that the
/// record rule accepts, and the indices strictly increase.
pub open spec fn scan_result_ok(out: Seq<NtfsDeletedRecord>, layout: NtfsLayout, check_fixup: bool) -> bool {
    &&& forall|k: int| #![trigger out[k]] 0 <= k < out.len() ==> exists|rec: Seq<u8>|
        rec.len() == layout.mft_record_size && #[trigger] spec_deleted_record(
            out[k].mft_record_index,
            rec,
            layout.bytes_per_sector as int,
            check_fixup,
        ) == Some(out[k]@)
    &&& forall|a: int, b: int| 0 <= a < b < out.len() ==> out[a].mft_record_index < out[b].mft_record_index
}

pub open spec fn ntfs_views(v: Seq<NtfsDeletedRecord>) -> Seq<NtfsDeletedView> {
    v.map_values(|d: NtfsDeletedRecord| d@)
}

/// The records an MFT scan keeps, in index order, from what its reads
/// returned: `reads[i]` is record `i` as read, `None` where it could not be
/// located or read.
pub open spec fn kept_records(reads: Seq<Option<Seq<u8>>>, bps: int, check_fixup: bool) -> Seq<NtfsDeletedView>
    decreases reads.len(),
{
    if reads.len() == 0 {
        Seq::empty()
    } else {
        let r = kept_records(reads.drop_last(), bps, check_fixup);
        match reads.last() {
            Some(rec) => match spec_deleted_record((reads.len() - 1) as u64, rec, bps, check_fixup) {
                Some(v) => r.push(v),
                None => r,
            },
            None => r,
        }
    }
}

/// Every record read has the record size.
pub open spec fn reads_sized(reads: Seq<Option<Seq<u8>>>, size: int) -> bool {
    forall|i: int| 0 <= i < reads.len() ==> (#[trigger] reads[i] matches Some(rec) ==> rec.len() == size)
}

/// How many records the full scan walks: the $MFT's size, as record 0
/// (`rec0`, as read) states it, over the record size.
pub open spec fn mft_record_count(rec0: Option<Seq<u8>>, layout: NtfsLayout) -> int {
    match rec0 {
        None => 0,
        Some(r) => match spec_mft_self(r, layout.bytes_per_sector as int) {
            None => 0,
            Some((size, _runs)) => if layout.mft_record_size == 0 { 0 } else { (size as int) / (layout.mft_record_size as int) },
        },
    }
}

/// `out` is what a full MFT scan keeps of some records read, as many as
/// record 0 (as read) says the MFT holds.
pub open spec fn full_scan_of_some_reads(out: Seq<NtfsDeletedView>, layout: NtfsLayout) -> bool {
    exists|rec0: Option<Seq<u8>>, reads: Seq<Option<Seq<u8>>>|
        #![trigger mft_record_count(rec0, layout), kept_records(reads, layout.bytes_per_sector as int, true)]
        reads_sized(reads, layout.mft_record_size as int)
        && reads.len() == mft_record_count(rec0, layout)
        && out == kept_records(reads, layout.bytes_per_sector as int, true)
}

/// The $MFT's own data runs, from record 0 as read (none without it).
pub open spec fn mft_runs(rec0: Option<Seq<u8>>, l: NtfsLayout) -> Seq<(i64, u64)> {
    match rec0 {
        Some(r) => match spec_mft_self(r, l.bytes_per_sector as int) {
            Some((_size, runs)) => runs,
            None => Seq::empty(),
        },
        None => Seq::empty(),
    }
}

/// Record slot `i` of the MFT on a device holding `contents`: the record
/// size's bytes at the offset that `runs0` maps record `i`'s virtual offset
/// to, or nothing where the runs do not map it.
pub open spec fn mft_slot(l: NtfsLayout, runs0: Seq<(i64, u64)>, i: int, contents: Seq<u8>) -> Option<Seq<u8>> {
    match spec_map_from(runs0, l.cluster_size as u64, sat_mul(i as u64, l.mft_record_size as u64), 0, 0) {
        Some(off) => Some(contents.subrange(off as int, off + l.mft_record_size)),
        None => None,
    }
}

/// On a device holding `contents`, `out` is what the full scan keeps of the
/// records read: record 0 is the bytes at the MFT offset (unless its read
/// failed), and every record read is the record slot that record 0's runs
/// map it to; a slot is missing only where it is unmapped or its read failed.
pub open spec fn full_scan_of(out: Seq<NtfsDeletedView>, l: NtfsLayout, contents: Seq<u8>) -> bool {
    exists|rec0: Option<Seq<u8>>, reads: Seq<Option<Seq<u8>>>|
        #![trigger mft_record_count(rec0, l), kept_records(reads, l.bytes_per_sector as int, true)]
        (rec0 is None || rec0 == Some(contents.subrange(l.mft_offset as int, l.mft_offset + l.mft_record_size)))
        && reads.len() == mft_record_count(rec0, l)
        && (forall|i: int| 0 <= i < reads.len() ==> (#[trigger] reads[i] is None
            || reads[i] == mft_slot(l, mft_runs(rec0, l), i, contents)))
        && out == kept_records(reads, l.bytes_per_sector as int, true)
}

/// Record 0 of the MFT as the device holds it.
pub open spec fn mft_record0(l: NtfsLayout, contents: Seq<u8>) -> Option<Seq<u8>> {
    Some(contents.subrange(l.mft_offset as int, l.mft_offset + l.mft_record_size))
}

/// The device offset record `i`'s slot is mapped to by the runs `runs0`.
pub open spec fn mft_slot_offset(l: NtfsLayout, runs0: Seq<(i64, u64)>, i: int) -> Option<u64> {
    spec_map_from(runs0, l.cluster_size as u64, sat_mul(i as u64, l.mft_record_size as u64), 0, 0)
}

/// Record 0 and every record slot its runs map lie inside the device.
pub open spec fn mft_readable(l: NtfsLayout, contents: Seq<u8>) -> bool {
    let rec0 = mft_record0(l, contents);
    &&& l.mft_offset + l.mft_record_size <= contents.len()
    &&& forall|i: int| 0 <= i < mft_record_count(rec0, l) ==>
        (#[trigger] mft_slot_offset(l, mft_runs(rec0, l), i) matches Some(off) ==> off + l.mft_record_size <= contents.len())
}

/// The MFT's records on a device holding `contents`, read in full: as many
/// as record 0 says, each the record slot that record 0's runs map it to,
/// or none where they map it nowhere.
pub open spec fn mft_full_reads(l: NtfsLayout, contents: Seq<u8>) -> Seq<Option<Seq<u8>>> {
    let rec0 = mft_record0(l, contents);
    Seq::new(mft_record_count(rec0, l) as nat, |i: int| mft_slot(l, mft_runs(rec0, l), i, contents))
}

proof fn lemma_kept_push(reads: Seq<Option<Seq<u8>>>, x: Option<Seq<u8>>, bps: int, check_fixup: bool)
    ensures
        kept_records(reads.push(x), bps, check_fixup) == (match x {
            Some(rec) => match spec_deleted_record(reads.len() as u64, rec, bps, check_fixup) {
                Some(v) => kept_records(reads, bps, check_fixup).push(v),
                None => kept_records(reads, bps, check_fixup),
            },
            None => kept_records(reads, bps, check_fixup),
        }),
{
    assert(reads.push(x).drop_last() =~= reads);
}

/// Full MFT traversal: record 0 ($MFT) is read first and its own data-run
/// list locates every further record; each record is read on its own and
/// kept when `deleted_record_from` accepts it. An unreadable or unmapped
/// record is skipped: the records kept are exactly `kept_records` of the
/// records read.
pub fn scan_mft_for_deleted_full<R: StorageReader>(reader: &mut R, layout: &NtfsLayout) -> (out: Vec<NtfsDeletedRecord>)
    ensures
        scan_result_ok(out@, *layout, true),
        full_scan_of_some_reads(ntfs_views(out@), *layout),
        final(reader).contents() == old(reader).contents(),
        final(reader).faithful() == old(reader).faithful(),
        final(reader).reliable() == old(reader).reliable(),
        final(reader).exact_inside() == old(reader).exact_inside(),
        old(reader).faithful() ==> full_scan_of(ntfs_views(out@), *layout, old(reader).contents()),
        reads_whole_device(*old(reader)) && mft_readable(*layout, old(reader).contents())
            ==> ntfs_views(out@) == kept_records(mft_full_reads(*layout, old(reader).contents()), layout.bytes_per_sector as int, true),
{
    let ghost wr = reads_whole_device(*old(reader)) && mft_readable(*layout, old(reader).contents());
    let mut out: Vec<NtfsDeletedRecord> = Vec::new();
    let ghost bps = layout.bytes_per_sector as int;
    let ghost rs = layout.mft_record_size as int;
    proof {
        assert(ntfs_views(out@) =~= kept_records(Seq::empty(), bps, true));
        assert(reads_sized(Seq::empty(), rs));
        assert(mft_record_count(None, *layout) == 0);
    }
    let record0 = match reader.read_range(layout.mft_offset, layout.mft_record_size as usize) {
        Ok(r) => r,
        Err(_) => {
            assert(!wr);
            return out;
        },
    };
    let ghost rec0 = Some(record0@);
    let ghost contents = old(reader).contents();
    let ghost faithful = old(reader).faithful();
    assert(wr ==> rec0 == mft_record0(*layout, contents));
    let (mft_size, runs) = match mft_self_runs(record0.as_slice(), layout.bytes_per_sector) {
        Some(v) => v,
        None => {
            assert(mft_record_count(rec0, *layout) == 0);
            assert(wr ==> mft_full_reads(*layout, contents) =~= Seq::<Option<Seq<u8>>>::empty());
            return out;
        },
    };
    if layout.mft_record_size == 0 {
        assert(mft_record_count(rec0, *layout) == 0);
        assert(wr ==> mft_full_reads(*layout, contents) =~= Seq::<Option<Seq<u8>>>::empty());
        return out;
    }
    let total = mft_size / layout.mft_record_size as u64;
    assert(total == mft_record_count(rec0, *layout));
    let ghost mut reads: Seq<Option<Seq<u8>>> = Seq::empty();
    let mut i: u64 = 0;
    while i < total
        invariant
            scan_result_ok(out@, *layout, true),
            forall|k: int| 0 <= k < out@.len() ==> out@[k].mft_record_index < i,
            reads.len() == i,
            i <= total,
            total == mft_record_count(rec0, *layout),
            bps == layout.bytes_per_sector as int,
            rs == layout.mft_record_size as int,
            reads_sized(reads, rs),
            ntfs_views(out@) == kept_records(reads, bps, true),
            reader.contents() == contents,
            reader.faithful() == faithful,
            reader.reliable() == old(reader).reliable(),
            reader.exact_inside() == old(reader).exact_inside(),
            contents == old(reader).contents(),
            faithful == old(reader).faithful(),
            faithful ==> rec0 == Some(contents.subrange(layout.mft_offset as int, layout.mft_offset + layout.mft_record_size)),
            mft_runs(rec0, *layout) == runs@,
            forall|k: int| 0 <= k < reads.len() ==> (faithful ==> (#[trigger] reads[k] is None
                || reads[k] == mft_slot(*layout, runs@, k, contents))),
            wr == (reads_whole_device(*old(reader)) && mft_readable(*layout, old(reader).contents())),
            wr ==> rec0 == mft_record0(*layout, contents),
            wr ==> forall|k: int| 0 <= k < reads.len() ==> #[trigger] reads[k] == mft_slot(*layout, runs@, k, contents),
        decreases total - i,
    {
        let ghost before = ntfs_views(out@);
        let ghost mut got: Option<Seq<u8>> = None;
        proof {
            lemma_kept_push(reads, None, bps, true);
        }
        let virtual_offset = saturating_mul(i, layout.mft_record_size as u64);
        let physical = map_runlist_offset(runs.as_slice(), layout.cluster_size as u64, virtual_offset);
        proof {
            if wr {
                assert(physical == mft_slot_offset(*layout, runs@, i as int));
                assert(physical matches Some(off) ==> off + layout.mft_record_size <= contents.len());
            }
        }
        if let Some(off) = physical {
            let rd = reader.read_range(off, layout.mft_record_size as usize);
            proof {
                if wr {
                    assert(rd matches Ok(b) && b@ == contents.subrange(off as int, off + layout.mft_record_size));
                }
            }
            if let Ok(record) = rd {
                proof {
                    got = Some(record@);
                    lemma_kept_push(reads, got, bps, true);
                }
                if let Some(d) = deleted_record_from(i, record.as_slice(), layout.bytes_per_sector, true) {
                    assert(record@.len() == layout.mft_record_size);
                    assert(spec_deleted_record(d.mft_record_index, record@, layout.bytes_per_sector as int, true) == Some(d@));
                    out.push(d);
                    assert forall|k: int| #![trigger out@[k]] 0 <= k < out@.len() implies exists|rec: Seq<u8>|
                        rec.len() == layout.mft_record_size && #[trigger] spec_deleted_record(
                            out@[k].mft_record_index,
                            rec,
                            layout.bytes_per_sector as int,
                            true,
                        ) == Some(out@[k]@) by {
                        if k == out@.len() - 1 {
                            assert(spec_deleted_record(out@[k].mft_record_index, record@, layout.bytes_per_sector as int, true) == Some(out@[k]@));
                        }
                    }
                    assert(ntfs_views(out@) =~= before.push(d@));
                }
            }
        }
        proof {
            let nr = reads.push(got);
            if wr {
                assert forall|k: int| 0 <= k < nr.len() implies #[trigger] nr[k] == mft_slot(*layout, runs@, k, contents) by {
                    if k < reads.len() {
                        assert(nr[k] == reads[k]);
                    }
                }
            }
            if faithful {
                assert forall|k: int| 0 <= k < nr.len() implies (#[trigger] nr[k] is None
                    || nr[k] == mft_slot(*layout, runs@, k, contents)) by {
                    if k < reads.len() {
                        assert(nr[k] == reads[k]);
                    }
                }
            }
            assert(reads_sized(nr, rs)) by {
                assert forall|j: int| 0 <= j < nr.len() implies (#[trigger] nr[j] matches Some(rec) ==> rec.len() == rs) by {
                    if j < reads.len() {
                        assert(nr[j] == reads[j]);
                    }
                }
            }
            reads = nr;
        }
        i = i + 1;
    }
    proof {
        if wr {
            assert(reads =~= mft_full_reads(*layout, contents));
        }
    }
    out
}

/// Bounded-prefix MFT scan (superseded by `scan_mft_for_deleted_full`):
/// reads `max_records` records laid out contiguously from the MFT offset,
/// without fixup validation; the first unreadable record, or a record
/// position past `u64`, ends the scan.
pub fn scan_mft_for_deleted<R: StorageReader>(reader: &mut R, layout: &NtfsLayout, max_records: usize) -> (out: Vec<NtfsDeletedRecord>)
    ensures
        scan_result_ok(out@, *layout, false),
        exists|reads: Seq<Option<Seq<u8>>>|
            #![trigger kept_records(reads, layout.bytes_per_sector as int, false)]
            reads_sized(reads, layout.mft_record_size as int)
            && reads.len() <= max_records
            && (forall|j: int| 0 <= j < reads.len() ==> #[trigger] reads[j] is Some)
            && ntfs_views(out@) == kept_records(reads, layout.bytes_per_sector as int, false),
{
    let mut out: Vec<NtfsDeletedRecord> = Vec::new();
    let ghost bps = layout.bytes_per_sector as int;
    let ghost rs = layout.mft_record_size as int;
    let ghost mut reads: Seq<Option<Seq<u8>>> = Seq::empty();
    proof {
        assert(ntfs_views(out@) =~= kept_records(reads, bps, false));
    }
    let mut i: usize = 0;
    while i < max_records
        invariant
            scan_result_ok(out@, *layout, false),
            forall|k: int| 0 <= k < out@.len() ==> out@[k].mft_record_index < i,
            reads.len() == i,
            i <= max_records,
            bps == layout.bytes_per_sector as int,
            rs == layout.mft_record_size as int,
            reads_sized(reads, rs),
            forall|j: int| 0 <= j < reads.len() ==> #[trigger] reads[j] is Some,
            ntfs_views(out@) == kept_records(reads, bps, false),
        decreases max_records - i,
    {
        let rel = (i as u64).checked_mul(layout.mft_record_size as u64);
        let off = match rel {
            Some(v) => layout.mft_offset.checked_add(v),
            None => None,
        };
        let off = match off {
            Some(v) => v,
            None => break,
        };
        let record = match reader.read_range(off, layout.mft_record_size as usize) {
            Ok(r) => r,
            Err(_) => break,
        };
        let ghost before = ntfs_views(out@);
        proof {
            lemma_kept_push(reads, Some(record@), bps, false);
        }
        if let Some(d) = deleted_record_from(i as u64, record.as_slice(), layout.bytes_per_sector, false) {
            assert(spec_deleted_record(d.mft_record_index, record@, layout.bytes_per_sector as int, false) == Some(d@));
            out.push(d);
            assert(ntfs_views(out@) =~= before.push(d@));
            assert forall|k: int| #![trigger out@[k]] 0 <= k < out@.len() implies exists|rec: Seq<u8>|
                rec.len() == layout.mft_record_size && #[trigger] spec_deleted_record(
                    out@[k].mft_record_index,
                    rec,
                    layout.bytes_per_sector as int,
                    false,
                ) == Some(out@[k]@) by {
                if k == out@.len() - 1 {
                    assert(spec_deleted_record(out@[k].mft_record_index, record@, layout.bytes_per_sector as int, false) == Some(out@[k]@));
                }
            }
        }
        proof {
            let nr = reads.push(Some(record@));
            assert(reads_sized(nr, rs) && forall|j: int| 0 <= j < nr.len() ==> #[trigger] nr[j] is Some) by {
                assert forall|j: int| 0 <= j < nr.len() implies (#[trigger] nr[j] matches Some(rec) ==> rec.len() == rs) && nr[j] is Some by {
                    if j < reads.len() {
                        assert(nr[j] == reads[j]);
                    }
                }
            }
            reads = nr;
        }
        i = i + 1;
    }
    out
}

/// The (byte offset, byte length) runs holding the first `logical` bytes of
/// a file, walking data runs from `k` with `total` bytes already placed.
/// A sparse run (negative LCN) is given offset `u64::MAX`. A run whose byte
/// length or byte offset passes `u64::MAX` ends the list.
pub open spec fn spec_resolve_from(runs: Seq<(i64, u64)>, cs: u64, logical: u64, k: int, total: u64) -> Seq<(u64, u64)>
    decreases runs.len() - k,
{
    if k < 0 || k >= runs.len() || runs[k].1 * cs > u64::MAX {
        Seq::empty()
    } else {
        let len = (runs[k].1 * cs) as u64;
        let remaining = logical.saturating_sub(total);
        let add = if len < remaining { len } else { remaining };
        if add == 0 {
            Seq::empty()
        } else if runs[k].0 < 0 {
            seq![(u64::MAX, add)] + spec_resolve_from(runs, cs, logical, k + 1, (total + add) as u64)
        } else if runs[k].0 * cs > u64::MAX {
            Seq::empty()
        } else {
            seq![((runs[k].0 * cs) as u64, add)] + spec_resolve_from(runs, cs, logical, k + 1, (total + add) as u64)
        }
    }
}

/// Translates data runs into byte runs covering the file's logical size.
pub fn resolve_data_runs(layout: &NtfsLayout, runs: &[(i64, u64)], logical_size: u64) -> (r: Vec<(u64, u64)>)
    ensures
        r@ == spec_resolve_from(runs@, layout.cluster_size as u64, logical_size, 0, 0),
{
    let cs = layout.cluster_size as u64;
    let mut out: Vec<(u64, u64)> = Vec::new();
    let mut total: u64 = 0;
    let mut k: usize = 0;
    while k < runs.len()
        invariant
            k <= runs@.len(),
            total <= logical_size,
            cs == layout.cluster_size,
            out@ + spec_resolve_from(runs@, cs, logical_size, k as int, total)
                == spec_resolve_from(runs@, cs, logical_size, 0, 0),
        ensures
            out@ == spec_resolve_from(runs@, cs, logical_size, 0, 0),
        decreases runs@.len() - k,
    {
        let (lcn, count) = runs[k];
        let len = match count.checked_mul(cs) {
            Some(v) => v,
            None => break,
        };
        let remaining = logical_size.saturating_sub(total);
        let add = if len < remaining { len } else { remaining };
        if add == 0 {
            break;
        }
        let ghost old_out = out@;
        if lcn < 0 {
            out.push((u64::MAX, add));
        } else {
            let start = match (lcn as u64).checked_mul(cs) {
                Some(v) => v,
                None => break,
            };
            out.push((start, add));
        }
        assert(out@ + spec_resolve_from(runs@, cs, logical_size, k + 1, (total + add) as u64)
            =~= old_out + spec_resolve_from(runs@, cs, logical_size, k as int, total));
        total = total + add;
        k = k + 1;
    }
    out
}

/// Materialises bytes from a resolved run list, at most `limit` of them;
/// sparse runs (offset `u64::MAX`) are zero-filled and an unreadable run
/// ends the output.
pub fn read_runs<R: StorageReader>(reader: &mut R, runs: &[(u64, u64)], limit: usize) -> (out: Vec<u8>)
    ensures
        out@.len() <= limit,
        materialised(out@, runs@, limit as int, true),
        final(reader).contents() == old(reader).contents(),
        final(reader).faithful() == old(reader).faithful(),
        final(reader).reliable() == old(reader).reliable(),
        final(reader).exact_inside() == old(reader).exact_inside(),
        old(reader).faithful() ==> read_from_contents(out@, runs@, limit as int, true, old(reader).contents()),
        reads_whole_device(*old(reader)) && runs_inside(runs@, limit as int, true, old(reader).contents())
            ==> read_all_from_contents(out@, runs@, limit as int, true, old(reader).contents()),
{
    read_run_list(reader, runs, limit, true)
}

/// Every record a scan keeps names the position of the record it was read
/// from, positions strictly increase, and each is what
/// `spec_deleted_record` makes of that record: a `FILE` record (passing the
/// fixup check where asked) not in use, a directory exactly when flag 2 is
/// set.
pub proof fn law_kept_records_in_mft_order(reads: Seq<Option<Seq<u8>>>, bps: int, check_fixup: bool)
    requires
        reads.len() <= u64::MAX,
    ensures
        forall|k: int| 0 <= k < kept_records(reads, bps, check_fixup).len() ==> {
            let v = #[trigger] kept_records(reads, bps, check_fixup)[k];
            &&& v.0 < reads.len()
            &&& reads[v.0 as int] matches Some(rec) && spec_deleted_record(v.0, rec, bps, check_fixup) == Some(v)
        },
        forall|j: int, k: int| 0 <= j < k < kept_records(reads, bps, check_fixup).len()
            ==> (#[trigger] kept_records(reads, bps, check_fixup)[j]).0 < (#[trigger] kept_records(reads, bps, check_fixup)[k]).0,
    decreases reads.len(),
{
    if reads.len() > 0 {
        let p = reads.drop_last();
        law_kept_records_in_mft_order(p, bps, check_fixup);
        let kp = kept_records(p, bps, check_fixup);
        let kr = kept_records(reads, bps, check_fixup);
        assert forall|k: int| 0 <= k < kp.len() implies (#[trigger] kp[k]).0 < p.len() && reads[kp[k].0 as int] == p[kp[k].0 as int] by {}
        if kr.len() > kp.len() {
            assert(kr == kp.push(kr.last()));
        }
    }
}

/// The empty walk state.
pub open spec fn attr_start_state() -> AttrState {
    (None, 0, None, Seq::empty())
}

/// The $FILE_NAME of the attribute at `pos`, where the walk takes one
/// there: a resident 0x30 attribute whose content fits in the record and
/// is at least 66 bytes long.
pub open spec fn name_at(r: Seq<u8>, pos: int) -> Option<(Seq<char>, u8)> {
    if spec_attr_step(r, pos, attr_start_state()) is Some && le32(r, pos) == 0x30 && r[pos + 8] == 0 {
        spec_file_name(r, pos)
    } else {
        None
    }
}

/// The names (with their namespaces) of the $FILE_NAME attributes the walk
/// from `pos` visits, in record order.
pub open spec fn walk_names(r: Seq<u8>, pos: int) -> Seq<(Seq<char>, u8)>
    decreases r.len() - pos,
{
    match spec_attr_step(r, pos, attr_start_state()) {
        Some((next, _)) => {
            let here = match name_at(r, pos) {
                Some(x) => seq![x],
                None => Seq::empty(),
            };
            if next > pos {
                here + walk_names(r, next)
            } else {
                here
            }
        },
        None => Seq::empty(),
    }
}

/// The last name that is not a DOS (namespace 2) name.
pub open spec fn last_non_dos(names: Seq<(Seq<char>, u8)>) -> Option<Seq<char>>
    decreases names.len(),
{
    if names.len() == 0 {
        None
    } else if names.last().1 != 2 {
        Some(names.last().0)
    } else {
        last_non_dos(names.drop_last())
    }
}

/// The name a record gets from its $FILE_NAME attributes: the last
/// non-DOS one, else the first, else none.
pub open spec fn chosen_name(names: Seq<(Seq<char>, u8)>) -> Option<Seq<char>> {
    match last_non_dos(names) {
        Some(n) => Some(n),
        None => if names.len() > 0 { Some(names[0].0) } else { None },
    }
}

/// The walk's name after taking `names` in turn from `cur`.
pub open spec fn fold_names(cur: Option<Seq<char>>, names: Seq<(Seq<char>, u8)>) -> Option<Seq<char>>
    decreases names.len(),
{
    if names.len() == 0 {
        cur
    } else {
        let x = names[0];
        fold_names(if cur is None || x.1 != 2 { Some(x.0) } else { cur }, names.drop_first())
    }
}

proof fn lemma_last_non_dos_front(x: (Seq<char>, u8), rest: Seq<(Seq<char>, u8)>)
    ensures
        last_non_dos(seq![x] + rest) == (match last_non_dos(rest) {
            Some(n) => Some(n),
            None => if x.1 != 2 { Some(x.0) } else { None },
        }),
    decreases rest.len(),
{
    let all = seq![x] + rest;
    if rest.len() == 0 {
        assert(all =~= seq![x]);
        assert(all.drop_last() =~= Seq::<(Seq<char>, u8)>::empty());
        assert(last_non_dos(Seq::<(Seq<char>, u8)>::empty()) is None);
        assert(all.last() == x);
    } else {
        assert(all.drop_last() =~= seq![x] + rest.drop_last());
        assert(all.last() == rest.last());
        lemma_last_non_dos_front(x, rest.drop_last());
        if rest.last().1 == 2 {
            assert(last_non_dos(rest) == last_non_dos(rest.drop_last()));
            assert(last_non_dos(all) == last_non_dos(all.drop_last()));
        }
    }
}

proof fn lemma_fold_names(cur: Option<Seq<char>>, names: Seq<(Seq<char>, u8)>)
    ensures
        fold_names(cur, names) == (match last_non_dos(names) {
            Some(n) => Some(n),
            None => if cur is Some { cur } else if names.len() > 0 { Some(names[0].0) } else { None },
        }),
    decreases names.len(),
{
    if names.len() > 0 {
        let x = names[0];
        let rest = names.drop_first();
        assert(names =~= seq![x] + rest);
        lemma_last_non_dos_front(x, rest);
        lemma_fold_names(if cur is None || x.1 != 2 { Some(x.0) } else { cur }, rest);
    }
}

proof fn lemma_step_any_state(r: Seq<u8>, pos: int, st: AttrState)
    ensures
        (spec_attr_step(r, pos, st) is Some) == (spec_attr_step(r, pos, attr_start_state()) is Some),
        spec_attr_step(r, pos, st) matches Some((next, st2)) ==> {
            &&& spec_attr_step(r, pos, attr_start_state()) matches Some((n0, _)) && n0 == next
            &&& st2.0 == (match name_at(r, pos) {
                Some(x) => if st.0 is None || x.1 != 2 { Some(x.0) } else { st.0 },
                None => st.0,
            })
        },
{
}

proof fn lemma_walk_name(r: Seq<u8>, pos: int, st: AttrState)
    ensures
        spec_attr_walk(r, pos, st).0 == fold_names(st.0, walk_names(r, pos)),
    decreases r.len() - pos,
{
    lemma_step_any_state(r, pos, st);
    match spec_attr_step(r, pos, st) {
        Some((next, st2)) => {
            let here = match name_at(r, pos) {
                Some(x) => seq![x],
                None => Seq::<(Seq<char>, u8)>::empty(),
            };
            if next > pos {
                lemma_walk_name(r, next, st2);
                let rest = walk_names(r, next);
                assert(walk_names(r, pos) == here + rest);
                if let Some(x) = name_at(r, pos) {
                    assert((here + rest).drop_first() =~= rest);
                    assert((here + rest)[0] == x);
                } else {
                    assert(here + rest =~= rest);
                }
            } else {
                assert(walk_names(r, pos) == here);
                if let Some(x) = name_at(r, pos) {
                    assert(here.drop_first() =~= Seq::<(Seq<char>, u8)>::empty());
                }
            }
        },
        None => {},
    }
}

/// A record's attribute walk yields a name exactly when it visits a
/// resident $FILE_NAME attribute whose content fits in the record and is
/// at least 66 bytes long; the name is that of the last such attribute not
/// in the DOS namespace, else that of the first.
pub proof fn law_parsed_name_is_the_chosen_file_name(r: Seq<u8>, start: int)
    ensures
        (spec_parse_attributes(r, start) is Some) == (walk_names(r, start).len() > 0),
        spec_parse_attributes(r, start) matches Some(p) ==> Some(p.0) == chosen_name(walk_names(r, start)),
{
    lemma_walk_name(r, start, attr_start_state());
    lemma_fold_names(None, walk_names(r, start));
}


/// Little-endian: `n + 1` bytes from `p` are the first `n` plus the last
/// one weighted by 256 to the `n`.
pub proof fn law_le_n_is_little_endian(b: Seq<u8>, p: int, n: nat)
    ensures
        le_n(b, p, n + 1) == le_n(b, p, n) + b[p + n] * pow256(n),
    decreases n,
{
    if n == 0 {
        assert(le_n(b, p + 1, 0) == 0);
        assert(le_n(b, p, 0) == 0);
        assert(pow256(0) == 1);
    } else {
        law_le_n_is_little_endian(b, p + 1, (n - 1) as nat);
        assert(le_n(b, p, n + 1) == b[p] + 256 * le_n(b, p + 1, n));
        assert(le_n(b, p, n) == b[p] + 256 * le_n(b, p + 1, (n - 1) as nat));
        assert(pow256(n) == 256 * pow256((n - 1) as nat));
        assert(256 * (le_n(b, p + 1, (n - 1) as nat) + b[p + 1 + (n - 1)] * pow256((n - 1) as nat))
            == 256 * le_n(b, p + 1, (n - 1) as nat) + b[p + n] * (256 * pow256((n - 1) as nat))) by (nonlinear_arith);
    }
}

/// A run's cluster count is the little-endian value of all of its length
/// bytes (as many as the header's low nibble says); e.g. a header 0x32 run
/// with a positive three-byte offset is (offset, two-byte length).
pub proof fn law_run_length_uses_every_length_byte(b: Seq<u8>, pos: int, prev: int)
    ensures
        spec_decode_runs(b, pos, prev).len() > 0 ==> spec_decode_runs(b, pos, prev)[0].1
            == le_n(b, pos + 1, (b[pos] % 16) as nat),
        b.len() >= 7 && b[0] == 0x32 && b[5] < 0x80 ==> spec_decode_runs(b, 0, 0).len() >= 1
            && spec_decode_runs(b, 0, 0)[0] == ((b[3] + 256 * b[4] + 65536 * b[5]) as i64, (b[1] + 256 * b[2]) as u64),
{
    if spec_decode_runs(b, pos, prev).len() > 0 {
        let ls = (b[pos] % 16) as nat;
        lemma_le_n_bound(b, pos + 1, ls);
        lemma_pow256_monotonic(ls, 8);
        lemma_pow256_8();
    }
    if b.len() >= 7 && b[0] == 0x32 && b[5] < 0x80 {
        assert(b[0] % 16 == 2 && b[0] / 16 == 3);
        lemma_le_n_bound(b, 1, 2);
        lemma_pow256_monotonic(2, 8);
        lemma_pow256_8();
        assert(le_n(b, 1, 2) == b[1] + 256 * b[2]) by {
            assert(le_n(b, 3, 0) == 0);
            assert(le_n(b, 2, 1) == b[2]);
        }
        assert(le_n(b, 3, 3) == b[3] + 256 * b[4] + 65536 * b[5]) by {
            assert(le_n(b, 6, 0) == 0);
            assert(le_n(b, 5, 1) == b[5]);
            assert(le_n(b, 4, 2) == b[4] + 256 * b[5]);
        }
        assert(run_offset(b, 3, 3) == le_n(b, 3, 3));
    }
}
} // verus!
