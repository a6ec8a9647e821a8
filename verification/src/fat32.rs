//! FAT32 metadata recovery through bounded reads: the boot sector, single
//! FAT entries, directory clusters and file cluster chains.
//!
//! On-disk values can name clusters that have no byte offset (cluster 0 or
//! 1 in a chain, a zero cluster size): the walk that meets one ends there,
//! as it does at an unreadable cluster.

use vstd::prelude::*;
use std::collections::HashSet;
use crate::bytes::{le16, le32, read_le16, read_le32};
use crate::storage::{read_all_from_contents, read_from_contents, invalid_data, materialised, read_run_list, reads_whole_device, runs_inside, StorageReader};
use crate::text::{
    char_from_u32, chars_to_string, is_scalar, owned, str_to_chars, trim, trim_chars, utf8_lossy,
    utf8_to_string_lossy,
};

verus! {

broadcast use vstd::std_specs::hash::group_hash_axioms;

/// The FAT entry stored at byte `at` of the volume: its little-endian
/// 32-bit value with the top four bits masked off.
pub open spec fn fat_value(contents: Seq<u8>, at: int) -> u32 {
    (le32(contents, at) as u32) & 0x0FFF_FFFF
}

/// Geometry of a FAT32 volume, from its boot sector.
pub struct Fat32Layout {
    pub bytes_per_sector: u32,
    pub sectors_per_cluster: u32,
    pub reserved_sectors: u32,
    pub num_fats: u32,
    pub sectors_per_fat: u32,
    pub root_cluster: u32,
    pub fat_start: u64,
    pub data_start: u64,
    pub cluster_size: u32,
}

pub open spec fn spec_fat32_layout(b: Seq<u8>) -> Fat32Layout {
    let bps = le16(b, 11);
    let rs = le16(b, 14);
    let fat_start = rs * bps;
    Fat32Layout {
        bytes_per_sector: bps as u32,
        sectors_per_cluster: b[13] as u32,
        reserved_sectors: rs as u32,
        num_fats: b[16] as u32,
        sectors_per_fat: le32(b, 36) as u32,
        root_cluster: le32(b, 44) as u32,
        fat_start: fat_start as u64,
        data_start: (fat_start + b[16] * le32(b, 36) * bps) as u64,
        cluster_size: (bps * b[13]) as u32,
    }
}

impl Fat32Layout {
    /// The bounds every parsed boot sector satisfies, which keep cluster
    /// and FAT-entry offsets inside `u64`.
    pub open spec fn bounded(&self) -> bool {
        &&& self.fat_start < 0x1_0000_0000
        &&& self.data_start < 0x0200_0000_0000_0000
        &&& self.cluster_size <= 65535 * 255
    }

    /// Byte offset of cluster `c` (the first data cluster is number 2).
    pub open spec fn spec_cluster_offset(&self, c: int) -> int {
        self.data_start + (c - 2) * self.cluster_size
    }

    /// Reads the volume geometry out of a boot sector.
    pub fn parse(boot_sector: &[u8]) -> (r: Fat32Layout)
        requires
            boot_sector@.len() >= 48,
        ensures
            r == spec_fat32_layout(boot_sector@),
            r.bounded(),
    {
        let b = boot_sector;
        let bytes_per_sector = read_le16(b, 11) as u32;
        let sectors_per_cluster = b[13] as u32;
        let reserved_sectors = read_le16(b, 14) as u32;
        let num_fats = b[16] as u32;
        let sectors_per_fat = read_le32(b, 36);
        let root_cluster = read_le32(b, 44);
        assert(reserved_sectors * bytes_per_sector <= 65535 * 65535) by (nonlinear_arith)
            requires
                reserved_sectors <= 65535,
                bytes_per_sector <= 65535,
        ;
        let fat_start = (reserved_sectors as u64) * (bytes_per_sector as u64);
        assert(num_fats * sectors_per_fat <= 255 * 0xFFFF_FFFF) by (nonlinear_arith)
            requires
                num_fats <= 255,
                sectors_per_fat <= 0xFFFF_FFFF,
        ;
        assert(num_fats * sectors_per_fat * bytes_per_sector <= 255 * 0xFFFF_FFFF * 65535) by (nonlinear_arith)
            requires
                num_fats <= 255,
                sectors_per_fat <= 0xFFFF_FFFF,
                bytes_per_sector <= 65535,
        ;
        let data_start = fat_start + (num_fats as u64) * (sectors_per_fat as u64) * (bytes_per_sector as u64);
        assert(bytes_per_sector * sectors_per_cluster <= 65535 * 255) by (nonlinear_arith)
            requires
                bytes_per_sector <= 65535,
                sectors_per_cluster <= 255,
        ;
        let cluster_size = bytes_per_sector * sectors_per_cluster;
        Fat32Layout {
            bytes_per_sector,
            sectors_per_cluster,
            reserved_sectors,
            num_fats,
            sectors_per_fat,
            root_cluster,
            fat_start,
            data_start,
            cluster_size,
        }
    }

    /// Byte offset of cluster `cluster`.
    pub fn cluster_offset(&self, cluster: u32) -> (r: u64)
        requires
            self.bounded(),
            cluster >= 2,
        ensures
            r == self.spec_cluster_offset(cluster as int),
    {
        assert((cluster - 2) * self.cluster_size <= 0xFFFF_FFFF * (65535 * 255)) by (nonlinear_arith)
            requires
                cluster - 2 <= 0xFFFF_FFFF,
                self.cluster_size <= 65535 * 255,
                cluster >= 2,
        ;
        self.data_start + ((cluster as u64) - 2) * (self.cluster_size as u64)
    }

    /// Reads one FAT entry: one read of four bytes at
    /// `fat_start + 4 * cluster`, whose value has its top four bits masked
    /// off. An unreadable entry reads as end-of-chain (0x0FFFFFFF).
    pub fn fat_entry<R: StorageReader>(&self, reader: &mut R, cluster: u32) -> (r: u32)
        requires
            self.bounded(),
        ensures
            r < 0x1000_0000,
            final(reader).contents() == old(reader).contents(),
            final(reader).faithful() == old(reader).faithful(),
            final(reader).reliable() == old(reader).reliable(),
            final(reader).exact_inside() == old(reader).exact_inside(),
            final(reader).logs_reads() == old(reader).logs_reads(),
            old(reader).logs_reads() ==> final(reader).reads() == old(reader).reads().push(((self.fat_start + 4 * cluster) as u64, 4usize)),
            old(reader).faithful() ==> (r == 0x0FFF_FFFF || r == fat_value(old(reader).contents(), self.fat_start + 4 * cluster)),
            old(reader).faithful() && old(reader).reliable() ==> r == fat_next(*self, old(reader).contents(), cluster),
            reads_whole_device(*old(reader)) && self.fat_start + 4 * cluster + 4 <= old(reader).contents().len()
                ==> r == fat_value(old(reader).contents(), self.fat_start + 4 * cluster),
    {
        let offset = self.fat_start + (cluster as u64) * 4;
        match reader.read_range(offset, 4) {
            Ok(bytes) => fat_entry_value(bytes.as_slice()),
            Err(_) => 0x0FFF_FFFF,
        }
    }
}

/// The FAT entry held in four little-endian bytes: their value with the
/// top four bits masked off.
pub fn fat_entry_value(b: &[u8]) -> (r: u32)
    requires
        b.len() >= 4,
    ensures
        r == fat_value(b@, 0),
        r < 0x1000_0000,
{
    let v = read_le32(b, 0);
    assert(v & 0x0FFF_FFFF < 0x1000_0000) by (bit_vector);
    v & 0x0FFF_FFFF
}

/// Reads the boot sector (one read of the first 512 bytes) and parses its
/// geometry; over a faithful, reliable reader of at least 512 bytes it
/// succeeds.
pub fn parse_boot_sector<R: StorageReader>(reader: &mut R) -> (r: std::io::Result<Fat32Layout>)
    ensures
        r matches Ok(l) ==> l.bounded() && exists|b: Seq<u8>|
            b.len() == 512 && l == #[trigger] spec_fat32_layout(b),
        final(reader).contents() == old(reader).contents(),
        final(reader).faithful() == old(reader).faithful(),
        final(reader).reliable() == old(reader).reliable(),
        final(reader).exact_inside() == old(reader).exact_inside(),
        final(reader).logs_reads() == old(reader).logs_reads(),
        old(reader).logs_reads() ==> final(reader).reads() == old(reader).reads().push((0u64, 512usize)),
        old(reader).reliable() && 512 <= old(reader).contents().len() ==> r is Ok,
        reads_whole_device(*old(reader)) && 512 <= old(reader).contents().len()
            ==> r == Ok::<Fat32Layout, std::io::Error>(spec_fat32_layout(old(reader).contents().subrange(0, 512))),
        old(reader).faithful() ==> (r matches Ok(l) ==> 512 <= old(reader).contents().len()
            && l == spec_fat32_layout(old(reader).contents().subrange(0, 512))),
{
    let boot = reader.read_range(0, 512)?;
    let l = Fat32Layout::parse(boot.as_slice());
    assert(boot@.len() == 512 && l == spec_fat32_layout(boot@));
    Ok(l)
}

/// A deleted directory entry.
pub struct DeletedEntry {
    pub name: String,
    pub name_source: String,
    pub start_cluster: u32,
    pub size: u32,
    pub metadata_intact: bool,
}

/// One step of the short-name checksum: rotate right by one bit, add the byte.
pub open spec fn lfn_step(sum: u8, b: u8) -> u8 {
    (((sum % 2) * 128 + sum / 2 + b) % 256) as u8
}

/// Checksum of the first `n` bytes.
pub open spec fn lfn_sum(s: Seq<u8>, n: int) -> u8
    decreases n,
{
    if n <= 0 {
        0
    } else {
        lfn_step(lfn_sum(s, n - 1), s[n - 1])
    }
}

/// The long-file-name checksum of an 8.3 short name (its first 11 bytes).
pub open spec fn spec_lfn_checksum(s: Seq<u8>) -> u8 {
    lfn_sum(s, if s.len() < 11 { s.len() as int } else { 11 })
}

/// The long-file-name checksum of a short name.
pub fn lfn_checksum(short: &[u8]) -> (r: u8)
    ensures
        r == spec_lfn_checksum(short@),
{
    let n = if short.len() < 11 { short.len() } else { 11 };
    let mut sum: u8 = 0;
    let mut i: usize = 0;
    while i < n
        invariant
            n <= short@.len(),
            n == (if short@.len() < 11 { short@.len() as int } else { 11 }),
            i <= n,
            sum == lfn_sum(short@, i as int),
        decreases n - i,
    {
        sum = (((sum % 2) as u16 * 128 + (sum / 2) as u16 + short[i] as u16) % 256) as u8;
        i = i + 1;
    }
    sum
}

/// Offsets of the thirteen UTF-16 characters of a long-name entry.
pub open spec fn lfn_offsets() -> Seq<int> {
    seq![1, 3, 5, 7, 9, 14, 16, 18, 20, 22, 24, 28, 30]
}

/// The characters of a long-name entry from slot `k`: a 0x0000 unit or the
/// end of the entry ends the name, 0xFFFF padding is skipped, and a unit
/// that is not a Unicode scalar value (a surrogate) is dropped.
pub open spec fn lfn_chars_from(e: Seq<u8>, k: int) -> Seq<char>
    decreases 13 - k,
{
    if k < 0 || k >= 13 || lfn_offsets()[k] + 1 >= e.len() {
        Seq::empty()
    } else {
        let c = le16(e, lfn_offsets()[k]);
        if c == 0 {
            Seq::empty()
        } else if c == 0xFFFF || !is_scalar(c as u32) {
            lfn_chars_from(e, k + 1)
        } else {
            seq![(c as u32) as char] + lfn_chars_from(e, k + 1)
        }
    }
}

fn lfn_offset(k: usize) -> (r: usize)
    requires
        k < 13,
    ensures
        r == lfn_offsets()[k as int],
{
    let t: [usize; 13] = [1, 3, 5, 7, 9, 14, 16, 18, 20, 22, 24, 28, 30];
    assert(t@ == seq![1usize, 3, 5, 7, 9, 14, 16, 18, 20, 22, 24, 28, 30]);
    t[k]
}

/// The name characters stored in one long-file-name directory entry.
pub fn decode_lfn_chars(entry: &[u8]) -> (r: Vec<char>)
    ensures
        r@ == lfn_chars_from(entry@, 0),
{
    let mut chars: Vec<char> = Vec::new();
    let mut k: usize = 0;
    while k < 13
        invariant
            k <= 13,
            chars@ + lfn_chars_from(entry@, k as int) == lfn_chars_from(entry@, 0),
        ensures
            chars@ == lfn_chars_from(entry@, 0),
        decreases 13 - k,
    {
        let off = lfn_offset(k);
        if off + 1 >= entry.len() {
            break;
        }
        let c = read_le16(entry, off);
        if c == 0 {
            break;
        }
        let ghost before = chars@;
        if c != 0xFFFF {
            match char_from_u32(c as u32) {
                Some(ch) => {
                    chars.push(ch);
                },
                None => {},
            }
        }
        assert(chars@ + lfn_chars_from(entry@, k + 1) =~= before + lfn_chars_from(entry@, k as int));
        k = k + 1;
    }
    chars
}

/// The byte runs covering the first `expected` bytes of a file stored in
/// the clusters `chain` (from index `k`, `total` bytes placed so far, `acc`
/// the runs built): each cluster adds `min(cluster size, bytes still
/// missing)` bytes, merged into the previous run when physically adjacent.
pub open spec fn spec_chain_runs(l: Fat32Layout, chain: Seq<u64>, expected: u64, k: int, acc: Seq<(u64, u64)>, total: u64) -> Seq<(u64, u64)>
    decreases chain.len() - k,
{
    if k < 0 || k >= chain.len() || expected.saturating_sub(total) == 0 {
        acc
    } else {
        let off = l.spec_cluster_offset(chain[k] as int) as u64;
        let rem = expected.saturating_sub(total);
        let add = if (l.cluster_size as u64) < rem { l.cluster_size as u64 } else { rem };
        if acc.len() > 0 && acc.last().0 + acc.last().1 == off {
            spec_chain_runs(l, chain, expected, k + 1, acc.update(acc.len() - 1, (acc.last().0, (acc.last().1 + add) as u64)), (total + add) as u64)
        } else {
            spec_chain_runs(l, chain, expected, k + 1, acc.push((off, add)), (total + add) as u64)
        }
    }
}

/// The clusters `start, start + 1, ..., start + count - 1`.
pub open spec fn contiguous_chain(start: u64, count: nat) -> Seq<u64> {
    Seq::new(count, |i: int| (start + i) as u64)
}

/// Every cluster number is a data cluster whose byte range stays in `u64`.
pub open spec fn chain_ok(chain: Seq<u64>) -> bool {
    forall|i: int| 0 <= i < chain.len() ==> 2 <= #[trigger] chain[i] <= 0x2_0000_0000
}

/// Byte runs of the clusters `chain`, covering `expected` bytes.
pub fn runs_from_chain(layout: &Fat32Layout, chain: &[u64], expected: u64) -> (r: Vec<(u64, u64)>)
    requires
        layout.bounded(),
        chain_ok(chain@),
    ensures
        r@ == spec_chain_runs(*layout, chain@, expected, 0, Seq::empty(), 0),
{
    let mut runs: Vec<(u64, u64)> = Vec::new();
    let mut total: u64 = 0;
    let mut k: usize = 0;
    let cs = layout.cluster_size as u64;
    while k < chain.len()
        invariant
            layout.bounded(),
            chain_ok(chain@),
            cs == layout.cluster_size,
            k <= chain@.len(),
            total <= expected,
            forall|i: int| #![trigger runs@[i]] 0 <= i < runs@.len() ==> runs@[i].0 < 0x0400_0000_0000_0000 && runs@[i].1 <= total,
            spec_chain_runs(*layout, chain@, expected, 0, Seq::empty(), 0) == spec_chain_runs(
                *layout,
                chain@,
                expected,
                k as int,
                runs@,
                total,
            ),
        ensures
            runs@ == spec_chain_runs(*layout, chain@, expected, 0, Seq::empty(), 0),
        decreases chain@.len() - k,
    {
        let c = chain[k];
        assert((c - 2) * cs <= 0x2_0000_0000 * (65535 * 255)) by (nonlinear_arith)
            requires
                2 <= c <= 0x2_0000_0000,
                cs <= 65535 * 255,
        ;
        let off = layout.data_start + (c - 2) * cs;
        assert(off < 0x0400_0000_0000_0000);
        let rem = expected.saturating_sub(total);
        if rem == 0 {
            break;
        }
        let add = if cs < rem { cs } else { rem };
        let n = runs.len();
        let ghost old_runs = runs@;
        let ghost old_total = total;
        assert forall|i: int| #![trigger old_runs[i]] 0 <= i < old_runs.len() implies old_runs[i].0 < 0x0400_0000_0000_0000 && old_runs[i].1 <= old_total by {
            assert(runs@[i] == old_runs[i]);
        }
        if n > 0 && runs[n - 1].0 as u128 + runs[n - 1].1 as u128 == off as u128 {
            let last = runs[n - 1];
            assert(last.1 <= total);
            runs.set(n - 1, (last.0, last.1 + add));
        } else {
            runs.push((off, add));
        }
        total = total + add;
        k = k + 1;
        assert forall|i: int| #![trigger runs@[i]] 0 <= i < runs@.len() implies runs@[i].0 < 0x0400_0000_0000_0000 && runs@[i].1 <= total by {
            if i < old_runs.len() && i != n - 1 {
                assert(runs@[i] == old_runs[i]);
                assert(old_runs[i].1 <= old_total);
            }
        }
    }
    runs
}

/// Clusters `start .. start + count`.
fn contiguous(start: u64, count: u64) -> (r: Vec<u64>)
    requires
        start + count <= u64::MAX,
    ensures
        r@ == contiguous_chain(start, count as nat),
{
    let mut v: Vec<u64> = Vec::new();
    let mut i: u64 = 0;
    while i < count
        invariant
            start + count <= u64::MAX,
            i <= count,
            v@ == contiguous_chain(start, i as nat),
        decreases count - i,
    {
        v.push(start + i);
        i = i + 1;
        assert(v@ =~= contiguous_chain(start, i as nat));
    }
    v
}

/// Clusters a file of `size` bytes occupies with clusters of `cs` bytes.
pub open spec fn cluster_count(size: u32, cs: u32) -> nat {
    ((size + cs - 1) / (cs as int)) as nat
}

/// The result of recovering a deleted entry's byte runs: for an empty file
/// or an entry without a data cluster, no runs and an intact chain;
/// otherwise the runs of some chain of `cluster_count` clusters starting at
/// the entry's first cluster, which is the contiguous chain when the FAT
/// chain was not intact. A layout with zero-sized clusters yields no runs and
/// a broken chain.
pub open spec fn recovered_runs_ok(l: Fat32Layout, entry_size: u32, start: u32, runs: Seq<(u64, u64)>, intact: bool) -> bool {
    if entry_size == 0 || start < 2 {
        runs.len() == 0 && intact
    } else if l.cluster_size == 0 {
        runs.len() == 0 && !intact
    } else {
        exists|chain: Seq<u64>| {
            &&& chain.len() == cluster_count(entry_size, l.cluster_size)
            &&& chain[0] == start
            &&& chain_ok(chain)
            &&& (!intact ==> chain == contiguous_chain(start as u64, cluster_count(entry_size, l.cluster_size)))
            &&& runs == #[trigger] spec_chain_runs(l, chain, entry_size as u64, 0, Seq::empty(), 0)
        }
    }
}

/// Follows the FAT chain of a deleted entry and returns its byte runs and
/// whether the chain was intact; a broken chain falls back to assuming the
/// clusters are contiguous. Nothing is read but FAT entries.
pub fn recover_file_runs<R: StorageReader>(reader: &mut R, layout: &Fat32Layout, entry: &DeletedEntry) -> (r: (Vec<(u64, u64)>, bool))
    requires
        layout.bounded(),
    ensures
        recovered_runs_ok(*layout, entry.size, entry.start_cluster, r.0@, r.1),
        final(reader).contents() == old(reader).contents(),
        final(reader).faithful() == old(reader).faithful(),
        final(reader).reliable() == old(reader).reliable(),
        final(reader).exact_inside() == old(reader).exact_inside(),
        old(reader).faithful() ==> chain_runs_from_fat(*layout, entry.size, entry.start_cluster, r.0@, r.1, old(reader).contents()),
        final(reader).logs_reads() == old(reader).logs_reads(),
        old(reader).logs_reads() ==> old(reader).reads().len() <= final(reader).reads().len()
            && final(reader).reads().subrange(0, old(reader).reads().len() as int) == old(reader).reads(),
        reads_whole_device(*old(reader)) && old(reader).logs_reads()
            ==> chain_runs_from_fat(*layout, entry.size, entry.start_cluster, r.0@, r.1, old(reader).contents())
            || some_read_outside(final(reader).reads(), old(reader).reads().len() as int, old(reader).contents()),
{
    let ghost whole = reads_whole_device(*old(reader));
    let ghost mut outside = false;
    if entry.size == 0 || entry.start_cluster < 2 {
        return (Vec::new(), true);
    }
    if layout.cluster_size == 0 {
        return (Vec::new(), false);
    }
    let cs = layout.cluster_size as u64;
    let count = (entry.size as u64 + cs - 1) / cs;
    assert(count <= 0xFFFF_FFFF) by (nonlinear_arith)
        requires
            count == (entry.size + cs - 1) / (cs as int),
            cs >= 1,
            entry.size <= 0xFFFF_FFFF,
    ;
    assert(count >= 1) by (nonlinear_arith)
        requires
            count == (entry.size + cs - 1) / (cs as int),
            cs >= 1,
            entry.size >= 1,
    ;
    let mut chain: Vec<u64> = Vec::new();
    chain.push(entry.start_cluster as u64);
    let mut current = entry.start_cluster;
    let mut chain_intact = true;
    let mut step: u64 = 1;
    while step < count
        invariant_except_break
            chain_intact,
        invariant
            layout.bounded(),
            1 <= step <= count,
            chain@.len() == step,
            chain@[0] == entry.start_cluster,
            chain_ok(chain@),
            current == chain@[chain@.len() - 1],
            reader.contents() == old(reader).contents(),
            reader.faithful() == old(reader).faithful(),
            reader.reliable() == old(reader).reliable(),
            reader.exact_inside() == old(reader).exact_inside(),
            old(reader).faithful() ==> fat_links(*layout, old(reader).contents(), chain@),
            reader.logs_reads() == old(reader).logs_reads(),
            old(reader).logs_reads() ==> old(reader).reads().len() <= reader.reads().len()
                && reader.reads().subrange(0, old(reader).reads().len() as int) == old(reader).reads(),
            whole == reads_whole_device(*old(reader)),
            (old(reader).faithful() || (whole && !outside)) ==> fat_links(*layout, old(reader).contents(), chain@),
            old(reader).logs_reads() && outside ==> some_read_outside(reader.reads(), old(reader).reads().len() as int, old(reader).contents()),
        ensures
            1 <= chain@.len() <= count,
            chain@[0] == entry.start_cluster,
            chain_ok(chain@),
            reader.contents() == old(reader).contents(),
            reader.faithful() == old(reader).faithful(),
            reader.reliable() == old(reader).reliable(),
            reader.exact_inside() == old(reader).exact_inside(),
            old(reader).faithful() ==> fat_links(*layout, old(reader).contents(), chain@),
            reader.logs_reads() == old(reader).logs_reads(),
            old(reader).logs_reads() ==> old(reader).reads().len() <= reader.reads().len()
                && reader.reads().subrange(0, old(reader).reads().len() as int) == old(reader).reads(),
            (old(reader).faithful() || (whole && !outside)) ==> fat_links(*layout, old(reader).contents(), chain@),
            old(reader).logs_reads() && outside ==> some_read_outside(reader.reads(), old(reader).reads().len() as int, old(reader).contents()),
            chain_intact ==> chain@.len() == count,
            !chain_intact ==> chain@.len() < count,
        decreases count - step,
    {
        let ghost lg = reader.reads();
        let next = layout.fat_entry(reader, current);
        proof {
            if old(reader).logs_reads() {
                assert(reader.reads().subrange(0, old(reader).reads().len() as int)
                    =~= lg.subrange(0, old(reader).reads().len() as int));
            }
            let fr_read = (((layout.fat_start + 4 * current) as u64), 4usize);
            if !(layout.fat_start + 4 * current + 4 <= old(reader).contents().len()) {
                if old(reader).logs_reads() {
                    lemma_outside_push(lg, fr_read, old(reader).reads().len() as int, old(reader).contents());
                }
                outside = true;
            } else if old(reader).logs_reads() && outside {
                lemma_outside_push(lg, fr_read, old(reader).reads().len() as int, old(reader).contents());
            }
        }
        if !(2 <= next && next < 0x0FFF_FFF8) {
            chain_intact = false;
            break;
        }
        let ghost before = chain@;
        chain.push(next as u64);
        proof {
            if (old(reader).faithful() || (whole && !outside)) {
                assert forall|i: int| 0 <= i < chain@.len() - 1 implies #[trigger] chain@[i + 1]
                    == fat_value(old(reader).contents(), layout.fat_start + 4 * chain@[i]) by {
                    if i < before.len() - 1 {
                        assert(chain@[i + 1] == before[i + 1] && chain@[i] == before[i]);
                    } else {
                        assert(chain@[i] == current);
                    }
                }
            }
        }
        current = next;
        step = step + 1;
    }
    if chain.len() as u64 != count {
        chain_intact = false;
        chain = contiguous(entry.start_cluster as u64, count);
        assert(chain_ok(chain@));
    }
    let runs = runs_from_chain(layout, chain.as_slice(), entry.size as u64);
    assert(cluster_count(entry.size, layout.cluster_size) == count);
    assert(chain@.len() == count);
    assert(chain@[0] == entry.start_cluster);
    assert(runs@ == spec_chain_runs(*layout, chain@, entry.size as u64, 0, Seq::empty(), 0));
    proof {
        if old(reader).faithful() && chain_intact {
            assert(fat_links(*layout, old(reader).contents(), chain@));
        }
        if whole && !outside && chain_intact {
            assert(fat_links(*layout, old(reader).contents(), chain@));
        }
    }
    (runs, chain_intact)
}

/// Each cluster of `chain` after the first is the one the device's FAT
/// entry for its predecessor names.
pub open spec fn fat_links(l: Fat32Layout, contents: Seq<u8>, chain: Seq<u64>) -> bool {
    forall|i: int| 0 <= i < chain.len() - 1 ==> #[trigger] chain[i + 1] == fat_value(contents, l.fat_start + 4 * chain[i])
}

/// On a device holding `contents`: when the chain was intact, the runs are
/// those of `cluster_count` clusters from the entry's first cluster, each
/// linked to the next by the device's FAT.
pub open spec fn chain_runs_from_fat(l: Fat32Layout, entry_size: u32, start: u32, runs: Seq<(u64, u64)>, intact: bool, contents: Seq<u8>) -> bool {
    entry_size != 0 && start >= 2 && l.cluster_size != 0 && intact ==> exists|chain: Seq<u64>| {
        &&& chain.len() == cluster_count(entry_size, l.cluster_size)
        &&& chain[0] == start
        &&& fat_links(l, contents, chain)
        &&& runs == #[trigger] spec_chain_runs(l, chain, entry_size as u64, 0, Seq::empty(), 0)
    }
}

/// Materialises file bytes from a run list, at most `limit` of them; an
/// unreadable run ends the output.
pub fn read_runs<R: StorageReader>(reader: &mut R, runs: &[(u64, u64)], limit: usize) -> (out: Vec<u8>)
    ensures
        out@.len() <= limit,
        materialised(out@, runs@, limit as int, false),
        final(reader).contents() == old(reader).contents(),
        final(reader).faithful() == old(reader).faithful(),
        final(reader).reliable() == old(reader).reliable(),
        final(reader).exact_inside() == old(reader).exact_inside(),
        old(reader).faithful() ==> read_from_contents(out@, runs@, limit as int, false, old(reader).contents()),
        reads_whole_device(*old(reader)) && runs_inside(runs@, limit as int, false, old(reader).contents())
            ==> read_all_from_contents(out@, runs@, limit as int, false, old(reader).contents()),
{
    read_run_list(reader, runs, limit, false)
}

/// (name, name source, first cluster, size, metadata intact).
pub type DeletedView = (Seq<char>, Seq<char>, u32, u32, bool);

impl View for DeletedEntry {
    type V = DeletedView;

    open spec fn view(&self) -> DeletedView {
        (self.name@, self.name_source@, self.start_cluster, self.size, self.metadata_intact)
    }
}

/// A collected long-name fragment: its characters and the short-name
/// checksum it carries (entry byte 13).
pub type LfnPart = (Seq<char>, u8);

/// The fragments' characters, last-collected first.
pub open spec fn rev_concat(buf: Seq<LfnPart>) -> Seq<char>
    decreases buf.len(),
{
    if buf.len() == 0 {
        Seq::empty()
    } else {
        buf.last().0 + rev_concat(buf.drop_last())
    }
}

/// Every collected fragment carries checksum `c`, and there is at least one.
pub open spec fn lfn_matches(buf: Seq<LfnPart>, c: u8) -> bool {
    buf.len() > 0 && forall|i: int| 0 <= i < buf.len() ==> #[trigger] buf[i].1 == c
}

/// Bytes read as Latin-1 characters (`b as char`).
pub open spec fn latin1(s: Seq<u8>) -> Seq<char> {
    s.map_values(|b: u8| b as char)
}

/// "?BASE" or "?BASE.EXT" from the trimmed base and extension texts.
pub open spec fn placeholder_name(base: Seq<char>, ext: Seq<char>) -> Seq<char> {
    if ext.len() == 0 {
        seq!['?'] + base
    } else {
        seq!['?'] + base + seq!['.'] + ext
    }
}

/// First data cluster of a directory entry (high word at 20, low word at 26).
pub open spec fn entry_start(e: Seq<u8>) -> u32 {
    (le16(e, 20) * 65536 + le16(e, 26)) as u32
}

pub open spec fn long_name_source() -> Seq<char> {
    "long_filename_reconstructed"@
}

pub open spec fn short_name_source() -> Seq<char> {
    "short_name_placeholder"@
}

/// The record for a deleted short entry `e` of the root directory, with
/// `buf` the long-name fragments collected before it: the reassembled long
/// name when every fragment's checksum matches the short name, otherwise a
/// placeholder from the Latin-1 base name (bytes 1..8, the first byte being
/// the deletion mark) and extension.
pub open spec fn spec_root_deleted(e: Seq<u8>, buf: Seq<LfnPart>) -> DeletedView {
    let start = entry_start(e);
    let valid = lfn_matches(buf, spec_lfn_checksum(e.subrange(0, 11)));
    (
        if valid {
            rev_concat(buf)
        } else {
            placeholder_name(trim(latin1(e.subrange(1, 8))), trim(latin1(e.subrange(8, 11))))
        },
        if valid { long_name_source() } else { short_name_source() },
        start,
        le32(e, 28) as u32,
        start > 0 && start < 0x0FFF_FFF0,
    )
}

/// Root-directory scan state: whether the end-of-directory entry was met,
/// the long-name fragments pending, and the deleted entries found.
pub type RootState = (bool, Seq<LfnPart>, Seq<DeletedView>);

/// One 32-byte directory entry of the root scan: a 0x00 first byte ends the
/// directory; a deleted (0xE5) long-name entry (attribute 0x0F) adds a
/// fragment; a deleted short entry yields a record and clears the
/// fragments; any other entry clears them.
pub open spec fn root_step(st: RootState, e: Seq<u8>) -> RootState {
    if st.0 {
        st
    } else if e[0] == 0 {
        (true, st.1, st.2)
    } else if e[0] == 0xE5 && e[11] == 0x0F {
        (false, st.1.push((lfn_chars_from(e, 0), e[13])), st.2)
    } else if e[0] == 0xE5 {
        (false, Seq::empty(), st.2.push(spec_root_deleted(e, st.1)))
    } else {
        (false, Seq::empty(), st.2)
    }
}

/// The root scan over a sequence of directory entries, in order.
pub open spec fn root_fold(es: Seq<Seq<u8>>) -> RootState
    decreases es.len(),
{
    if es.len() == 0 {
        (false, Seq::empty(), Seq::empty())
    } else {
        root_step(root_fold(es.drop_last()), es.last())
    }
}

/// The 32-byte entries of a cluster's bytes, in order (a trailing partial
/// entry is not one).
pub open spec fn entries_of(bytes: Seq<u8>) -> Seq<Seq<u8>> {
    Seq::new((bytes.len() / 32) as nat, |j: int| bytes.subrange(32 * j, 32 * j + 32))
}

/// The bytes of cluster `c` on the device.
pub open spec fn cluster_bytes(l: Fat32Layout, contents: Seq<u8>, c: u32) -> Seq<u8> {
    contents.subrange(l.spec_cluster_offset(c as int), l.spec_cluster_offset(c as int) + l.cluster_size)
}

/// At most `n` clusters of the chain that starts at cluster `c`, as the
/// device's FAT links them: the walk ends at a cluster below 2, and after
/// a cluster whose FAT entry is 0 or end-of-chain.
pub open spec fn fat_chain(l: Fat32Layout, contents: Seq<u8>, c: u32, n: nat) -> Seq<u32>
    decreases n,
{
    if n == 0 || c < 2 {
        Seq::empty()
    } else {
        let nx = fat_value(contents, l.fat_start + 4 * c);
        seq![c] + (if nx == 0 || nx >= 0x0FFF_FFF8 { Seq::empty() } else { fat_chain(l, contents, nx, (n - 1) as nat) })
    }
}

/// The entries of the clusters of `chain`, in order, as the device holds them.
pub open spec fn chain_entries(l: Fat32Layout, contents: Seq<u8>, chain: Seq<u32>) -> Seq<Seq<u8>>
    decreases chain.len(),
{
    if chain.len() == 0 {
        Seq::empty()
    } else {
        chain_entries(l, contents, chain.drop_last()) + entries_of(cluster_bytes(l, contents, chain.last()))
    }
}

/// What the root scan finds on a device holding `contents`: the root fold
/// of the entries of the first `m` clusters of the root directory's chain
/// (at most 65536 clusters), `m` falling short of the whole chain only
/// where a read failed.
pub open spec fn root_scan_of(found: Seq<DeletedView>, l: Fat32Layout, contents: Seq<u8>) -> bool {
    let chain = fat_chain(l, contents, l.root_cluster, 65536);
    exists|m: int| #![trigger chain.subrange(0, m)]
        0 <= m <= chain.len() && found == root_fold(chain_entries(l, contents, chain.subrange(0, m))).2
}

/// The root directory's cluster chain on the device (at most 65536 clusters).
pub open spec fn root_chain(l: Fat32Layout, contents: Seq<u8>) -> Seq<u32> {
    fat_chain(l, contents, l.root_cluster, 65536)
}

/// Every cluster of `chain`, and its FAT entry, lies inside the device.
pub open spec fn chain_readable(l: Fat32Layout, contents: Seq<u8>, chain: Seq<u32>) -> bool {
    forall|i: int| 0 <= i < chain.len() ==> {
        &&& l.spec_cluster_offset(#[trigger] chain[i] as int) + l.cluster_size <= contents.len()
        &&& l.fat_start + 4 * chain[i] + 4 <= contents.len()
    }
}

/// What the root scan finds when it reads the whole root chain: the root
/// fold of the entries of all its clusters.
pub open spec fn root_scan_full(l: Fat32Layout, contents: Seq<u8>) -> Seq<DeletedView> {
    root_fold(chain_entries(l, contents, root_chain(l, contents))).2
}

/// `r` is a read of data cluster `c` in full, or of its FAT entry.
pub open spec fn scan_read_of(l: Fat32Layout, r: (u64, usize), c: u32) -> bool {
    c >= 2 && (r == (l.spec_cluster_offset(c as int) as u64, l.cluster_size as usize)
        || r == ((l.fat_start + 4 * c) as u64, 4usize))
}

/// `r` is a read of some data cluster in full, or of its FAT entry.
pub open spec fn is_scan_read(l: Fat32Layout, r: (u64, usize)) -> bool {
    exists|c: u32| #[trigger] scan_read_of(l, r, c)
}

/// Every read after the first `n` of `reads` is of a whole data cluster or
/// of one FAT entry.
pub open spec fn scan_reads_ok(l: Fat32Layout, reads: Seq<(u64, usize)>, n: int) -> bool {
    0 <= n <= reads.len() && forall|k: int| n <= k < reads.len() ==> #[trigger] is_scan_read(l, reads[k])
}

/// Logging one more cluster or FAT read keeps the log's shape.
proof fn lemma_scan_reads_push(l: Fat32Layout, before: Seq<(u64, usize)>, n: int, r: (u64, usize), c: u32)
    requires
        scan_reads_ok(l, before, n),
        scan_read_of(l, r, c),
    ensures
        scan_reads_ok(l, before.push(r), n),
        before.push(r).subrange(0, n) == before.subrange(0, n),
{
    let after = before.push(r);
    assert forall|k: int| n <= k < after.len() implies #[trigger] is_scan_read(l, after[k]) by {
        if k < before.len() {
            assert(after[k] == before[k]);
            assert(is_scan_read(l, before[k]));
        } else {
            assert(scan_read_of(l, after[k], c));
        }
    }
    assert(after.subrange(0, n) =~= before.subrange(0, n));
}

/// The entries of a prefix of a chain are a prefix of the chain's entries.
proof fn lemma_chain_entries_prefix(l: Fat32Layout, contents: Seq<u8>, chain: Seq<u32>, m: int)
    requires
        0 <= m <= chain.len(),
    ensures
        chain_entries(l, contents, chain.subrange(0, m)).len() <= chain_entries(l, contents, chain).len(),
        chain_entries(l, contents, chain) == chain_entries(l, contents, chain.subrange(0, m))
            + chain_entries(l, contents, chain).subrange(chain_entries(l, contents, chain.subrange(0, m)).len() as int,
                chain_entries(l, contents, chain).len() as int),
    decreases chain.len(),
{
    if m == chain.len() {
        assert(chain.subrange(0, m) =~= chain);
        assert(chain_entries(l, contents, chain).subrange(chain_entries(l, contents, chain).len() as int,
            chain_entries(l, contents, chain).len() as int) =~= Seq::<Seq<u8>>::empty());
        assert(chain_entries(l, contents, chain) + Seq::<Seq<u8>>::empty() =~= chain_entries(l, contents, chain));
    } else {
        let d = chain.drop_last();
        lemma_chain_entries_prefix(l, contents, d, m);
        assert(d.subrange(0, m) =~= chain.subrange(0, m));
        let a = chain_entries(l, contents, chain.subrange(0, m));
        let b = chain_entries(l, contents, d);
        let c = chain_entries(l, contents, chain);
        assert(c == b + entries_of(cluster_bytes(l, contents, chain.last())));
        assert(c =~= a + c.subrange(a.len() as int, c.len() as int));
    }
}

/// Once a 0x00 entry has ended the directory, further entries change nothing.
proof fn lemma_root_fold_ended(es: Seq<Seq<u8>>, more: Seq<Seq<u8>>)
    requires
        root_fold(es).0,
    ensures
        root_fold(es + more) == root_fold(es),
    decreases more.len(),
{
    if more.len() > 0 {
        lemma_root_fold_ended(es, more.drop_last());
        assert((es + more).drop_last() =~= es + more.drop_last());
    } else {
        assert(es + more =~= es);
    }
}

pub open spec fn parts_view(v: Seq<(Vec<char>, u8)>) -> Seq<LfnPart> {
    v.map_values(|p: (Vec<char>, u8)| (p.0@, p.1))
}

pub open spec fn deleted_views(v: Seq<DeletedEntry>) -> Seq<DeletedView> {
    v.map_values(|d: DeletedEntry| d@)
}

fn latin1_chars(b: &[u8], from: usize, to: usize) -> (r: Vec<char>)
    requires
        from <= to <= b@.len(),
    ensures
        r@ == latin1(b@.subrange(from as int, to as int)),
{
    let mut v: Vec<char> = Vec::new();
    let mut i = from;
    while i < to
        invariant
            from <= i <= to <= b@.len(),
            v@ == latin1(b@.subrange(from as int, i as int)),
        decreases to - i,
    {
        v.push(b[i] as char);
        i = i + 1;
        assert(v@ =~= latin1(b@.subrange(from as int, i as int)));
    }
    v
}

fn build_placeholder(base: &Vec<char>, ext: &Vec<char>) -> (r: Vec<char>)
    ensures
        r@ == placeholder_name(base@, ext@),
{
    let mut v: Vec<char> = Vec::new();
    v.push('?');
    let mut i: usize = 0;
    while i < base.len()
        invariant
            i <= base@.len(),
            v@ == seq!['?'] + base@.subrange(0, i as int),
        decreases base@.len() - i,
    {
        v.push(base[i]);
        i = i + 1;
        assert(v@ =~= seq!['?'] + base@.subrange(0, i as int));
    }
    if ext.len() > 0 {
        v.push('.');
        let mut j: usize = 0;
        while j < ext.len()
            invariant
                j <= ext@.len(),
                v@ == seq!['?'] + base@ + seq!['.'] + ext@.subrange(0, j as int),
            decreases ext@.len() - j,
        {
            v.push(ext[j]);
            j = j + 1;
            assert(v@ =~= seq!['?'] + base@ + seq!['.'] + ext@.subrange(0, j as int));
        }
    }
    assert(v@ =~= placeholder_name(base@, ext@));
    v
}

fn all_checksums_match(buf: &Vec<(Vec<char>, u8)>, c: u8) -> (r: bool)
    ensures
        r == lfn_matches(parts_view(buf@), c),
{
    if buf.len() == 0 {
        return false;
    }
    let mut i: usize = 0;
    while i < buf.len()
        invariant
            i <= buf@.len(),
            forall|j: int| 0 <= j < i ==> #[trigger] buf@[j].1 == c,
        decreases buf@.len() - i,
    {
        if buf[i].1 != c {
            assert(parts_view(buf@)[i as int].1 != c);
            return false;
        }
        i = i + 1;
    }
    assert forall|j: int| 0 <= j < parts_view(buf@).len() implies #[trigger] parts_view(buf@)[j].1 == c by {
        assert(buf@[j].1 == c);
    }
    true
}

proof fn lemma_rev_concat_push(buf: Seq<LfnPart>, p: LfnPart)
    ensures
        rev_concat(buf.push(p)) == p.0 + rev_concat(buf),
{
    assert(buf.push(p).drop_last() =~= buf);
}

fn concat_reversed(buf: &Vec<(Vec<char>, u8)>) -> (r: Vec<char>)
    ensures
        r@ == rev_concat(parts_view(buf@)),
{
    let mut v: Vec<char> = Vec::new();
    let mut k: usize = buf.len();
    assert(buf@.subrange(0, k as int) =~= buf@);
    while k > 0
        invariant
            k <= buf@.len(),
            v@ + rev_concat(parts_view(buf@.subrange(0, k as int))) == rev_concat(parts_view(buf@)),
        decreases k,
    {
        let ghost pre = parts_view(buf@.subrange(0, k - 1));
        assert(parts_view(buf@.subrange(0, k as int)) =~= pre.push((buf@[k - 1].0@, buf@[k - 1].1)));
        proof {
            lemma_rev_concat_push(pre, (buf@[k - 1].0@, buf@[k - 1].1));
        }
        let part = &buf[k - 1].0;
        let ghost before = v@;
        let mut j: usize = 0;
        while j < part.len()
            invariant
                j <= part@.len(),
                v@ == before + part@.subrange(0, j as int),
            decreases part@.len() - j,
        {
            v.push(part[j]);
            j = j + 1;
            assert(v@ =~= before + part@.subrange(0, j as int));
        }
        assert(v@ =~= before + part@);
        k = k - 1;
    }
    assert(buf@.subrange(0, 0) =~= Seq::<(Vec<char>, u8)>::empty());
    assert(parts_view(Seq::<(Vec<char>, u8)>::empty()) =~= Seq::<LfnPart>::empty());
    v
}

/// The record for a deleted short entry of the root directory.
pub fn root_deleted_entry(e: &[u8], buf: &Vec<(Vec<char>, u8)>) -> (d: DeletedEntry)
    requires
        e@.len() == 32,
    ensures
        d@ == spec_root_deleted(e@, parts_view(buf@)),
{
    let start = (read_le16(e, 20) as u32) * 65536 + read_le16(e, 26) as u32;
    let size = read_le32(e, 28);
    let cks = lfn_checksum(&e[0..11]);
    let valid = all_checksums_match(buf, cks);
    let (name, source) = if valid {
        (concat_reversed(buf), owned("long_filename_reconstructed"))
    } else {
        let base = trim_chars(latin1_chars(e, 1, 8).as_slice());
        let ext = trim_chars(latin1_chars(e, 8, 11).as_slice());
        (build_placeholder(&base, &ext), owned("short_name_placeholder"))
    };
    DeletedEntry {
        name: chars_to_string(name.as_slice()),
        name_source: source,
        start_cluster: start,
        size,
        metadata_intact: start > 0 && start < 0x0FFF_FFF0,
    }
}

/// Scans the root directory's full cluster chain (at most 65536 clusters,
/// against a corrupt or circular FAT) for deleted entries. A 0x00 entry
/// ends the directory; an unreadable cluster, or a chain link to a
/// non-data cluster, ends the scan with what was found. Every read is of a
/// whole data cluster or of one FAT entry, at most one of each per cluster
/// visited; over a faithful, reliable reader whose root chain lies inside
/// the device, the whole chain is read.
pub fn scan_root_directory_for_deleted<R: StorageReader>(reader: &mut R, layout: &Fat32Layout) -> (out: Vec<DeletedEntry>)
    requires
        layout.bounded(),
    ensures
        exists|es: Seq<Seq<u8>>| (forall|i: int| 0 <= i < es.len() ==> (#[trigger] es[i]).len() == 32)
            && deleted_views(out@) == root_fold(es).2,
        final(reader).contents() == old(reader).contents(),
        final(reader).faithful() == old(reader).faithful(),
        final(reader).reliable() == old(reader).reliable(),
        final(reader).exact_inside() == old(reader).exact_inside(),
        final(reader).logs_reads() == old(reader).logs_reads(),
        old(reader).logs_reads() ==> final(reader).reads().subrange(0, old(reader).reads().len() as int) == old(reader).reads()
            && scan_reads_ok(*layout, final(reader).reads(), old(reader).reads().len() as int)
            && final(reader).reads().len() <= old(reader).reads().len() + 2 * 65536,
        old(reader).faithful() ==> root_scan_of(deleted_views(out@), *layout, old(reader).contents()),
        reads_whole_device(*old(reader))
            && chain_readable(*layout, old(reader).contents(), root_chain(*layout, old(reader).contents()))
            ==> deleted_views(out@) == root_scan_full(*layout, old(reader).contents()),
{
    let mut results: Vec<DeletedEntry> = Vec::new();
    let mut buf: Vec<(Vec<char>, u8)> = Vec::new();
    let ghost mut es: Seq<Seq<u8>> = Seq::empty();
    let ghost contents = reader.contents();
    let ghost faithful = reader.faithful();
    let ghost rel = reader.reliable();
    let ghost reads0 = reader.reads();
    let ghost full = fat_chain(*layout, contents, layout.root_cluster, 65536);
    let ghost readable = chain_readable(*layout, contents, full);
    let ghost whole = reads_whole_device(*reader) && readable;
    let ghost exact = faithful || whole;
    let ghost mut seen: Seq<u32> = Seq::empty();
    let mut cluster = layout.root_cluster;
    let mut visited: usize = 0;
    let mut ended = false;
    let mut done = false;
    proof {
        assert(full =~= seen + fat_chain(*layout, contents, cluster, 65536));
        assert(full.subrange(0, 0) =~= seen);
    }
    while !ended && !done
        invariant
            layout.bounded(),
            visited <= 65536,
            forall|i: int| 0 <= i < es.len() ==> (#[trigger] es[i]).len() == 32,
            root_fold(es) == (ended, parts_view(buf@), deleted_views(results@)),
            reader.contents() == contents,
            reader.faithful() == faithful,
            reader.reliable() == old(reader).reliable(),
            reader.exact_inside() == old(reader).exact_inside(),
            contents == old(reader).contents(),
            faithful == old(reader).faithful(),
            full == fat_chain(*layout, contents, layout.root_cluster, 65536),
            whole == (reads_whole_device(*old(reader)) && readable),
            exact == (faithful || whole),
            exact ==> seen.len() <= full.len() && seen == full.subrange(0, seen.len() as int),
            exact ==> root_fold(es) == root_fold(chain_entries(*layout, contents, seen)),
            exact && !ended ==> es == chain_entries(*layout, contents, seen),
            exact && !ended && !done ==> seen.len() == visited
                && full == seen + fat_chain(*layout, contents, cluster, (65536 - visited) as nat),
            reader.reliable() == rel,
            reader.exact_inside() == old(reader).exact_inside(),
            rel == old(reader).reliable(),
            reads0 == old(reader).reads(),
            readable == chain_readable(*layout, contents, full),
            reader.logs_reads() == old(reader).logs_reads(),
            old(reader).logs_reads() ==> reader.reads().subrange(0, reads0.len() as int) == reads0
                && scan_reads_ok(*layout, reader.reads(), reads0.len() as int)
                && reader.reads().len() <= reads0.len() + 2 * visited,
            whole && done && !ended ==> seen == full,
        decreases 65536 - visited, if done || ended { 0int } else { 1int },
    {
        if visited >= 65536 {
            proof {
                if exact && !ended {
                    assert(full == seen + Seq::<u32>::empty());
                    assert(full =~= seen);
                }
            }
            done = true;
        } else {
            visited = visited + 1;
            if cluster < 2 {
                proof {
                    if exact && !ended {
                        assert(full == seen + Seq::<u32>::empty());
                        assert(full =~= seen);
                    }
                }
                done = true;
            } else {
                let off = layout.cluster_offset(cluster);
                let ghost reads_before = reader.reads();
                let rd = reader.read_range(off, layout.cluster_size as usize);
                proof {
                    if old(reader).logs_reads() {
                        lemma_scan_reads_push(*layout, reads_before, reads0.len() as int, (off, layout.cluster_size as usize), cluster);
                    }
                    if exact && !ended {
                        let rest = fat_chain(*layout, contents, cluster, (65536 - (visited - 1)) as nat);
                        assert(rest[0] == cluster);
                        assert(full[seen.len() as int] == cluster);
                    }
                }
                match rd {
                    Err(_) => {
                        proof {
                            if whole && !ended {
                                assert(full[seen.len() as int] == cluster);
                                assert(layout.spec_cluster_offset(cluster as int) + layout.cluster_size <= contents.len());
                                assert(false);
                            }
                        }
                        done = true;
                    },
                    Ok(bytes) => {
                        let ghost es0 = es;
                        let ghost ents = entries_of(bytes@);
                        let mut i: usize = 0;
                        while i <= bytes.len() && 32 <= bytes.len() - i && !ended
                            invariant
                                forall|t: int| 0 <= t < es.len() ==> (#[trigger] es[t]).len() == 32,
                                root_fold(es) == (ended, parts_view(buf@), deleted_views(results@)),
                                i % 32 == 0,
                                i <= bytes@.len(),
                                ents == entries_of(bytes@),
                                es == es0 + ents.subrange(0, i as int / 32),
                            decreases bytes@.len() - i,
                        {
                            let e = &bytes.as_slice()[i..i + 32];
                            let ghost st = root_fold(es);
                            proof {
                                assert(e@ == ents[i as int / 32]);
                                let es2 = es.push(e@);
                                assert(es2.drop_last() =~= es);
                                assert(es2 =~= es0 + ents.subrange(0, i as int / 32 + 1));
                                es = es2;
                            }
            if e[0] == 0 {
                ended = true;
            } else if e[0] == 0xE5 && e[11] == 0x0F {
                buf.push((decode_lfn_chars(e), e[13]));
                assert(parts_view(buf@) =~= st.1.push((lfn_chars_from(e@, 0), e@[13])));
            } else if e[0] == 0xE5 {
                let d = root_deleted_entry(e, &buf);
                results.push(d);
                buf = Vec::new();
                assert(deleted_views(results@) =~= st.2.push(spec_root_deleted(e@, st.1)));
                assert(parts_view(buf@) =~= Seq::<LfnPart>::empty());
            } else {
                buf = Vec::new();
                assert(parts_view(buf@) =~= Seq::<LfnPart>::empty());
                            }
                            i = i + 32;
                        }
                        proof {
                            if exact {
                                if !faithful {
                                    assert(full[seen.len() as int] == cluster);
                                    assert(layout.spec_cluster_offset(cluster as int) + layout.cluster_size <= contents.len());
                                }
                                let seen2 = seen.push(cluster);
                                let ce = chain_entries(*layout, contents, seen2);
                                assert(seen2.drop_last() =~= seen);
                                assert(bytes@ == cluster_bytes(*layout, contents, cluster));
                                assert(ce == chain_entries(*layout, contents, seen) + ents);
                                assert(full == seen + fat_chain(*layout, contents, cluster, (65536 - (visited - 1)) as nat));
                                assert(full[seen.len() as int] == cluster);
                                assert(seen2 =~= full.subrange(0, seen2.len() as int));
                                if ended {
                                    let k = i as int / 32;
                                    assert(ents =~= ents.subrange(0, k) + ents.subrange(k, ents.len() as int));
                                    lemma_root_fold_ended(es, ents.subrange(k, ents.len() as int));
                                    assert(es + ents.subrange(k, ents.len() as int) =~= ce);
                                } else {
                                    assert(ents.subrange(0, i as int / 32) =~= ents);
                                    assert(es =~= ce);
                                }
                                seen = seen2;
                            }
                        }
                        if !ended {
                            let ghost reads_before2 = reader.reads();
                            let next = layout.fat_entry(reader, cluster);
                            proof {
                                if old(reader).logs_reads() {
                                    lemma_scan_reads_push(*layout, reads_before2, reads0.len() as int,
                                        (((layout.fat_start + 4 * cluster) as u64), 4usize), cluster);
                                }
                            }
                            if next == 0 || next >= 0x0FFF_FFF8 {
                                proof {
                                    if whole {
                                        let prev = seen.drop_last();
                                        assert(full[prev.len() as int] == cluster);
                                        assert(layout.fat_start + 4 * cluster + 4 <= contents.len());
                                        assert(next == fat_value(contents, layout.fat_start + 4 * cluster));
                                        let rest = fat_chain(*layout, contents, cluster, (65536 - (visited - 1)) as nat);
                                        assert(rest =~= seq![cluster]);
                                        assert(full =~= seen);
                                    }
                                }
                                done = true;
                            } else {
                                proof {
                                    if exact {
                                        if !faithful {
                                            assert(full[seen.len() - 1] == cluster);
                                            assert(layout.fat_start + 4 * cluster + 4 <= contents.len());
                                        }
                                        let rest = fat_chain(*layout, contents, cluster, (65536 - (visited - 1)) as nat);
                                        assert(rest =~= seq![cluster] + fat_chain(*layout, contents, next, (65536 - visited) as nat));
                                        assert(full =~= seen + fat_chain(*layout, contents, next, (65536 - visited) as nat));
                                    }
                                }
                                cluster = next;
                            }
                        }
                    },
                }
            }
        }
    }
    proof {
        if exact {
            assert(full.subrange(0, seen.len() as int) == seen);
            if whole {
                lemma_chain_entries_prefix(*layout, contents, full, seen.len() as int);
                let a = chain_entries(*layout, contents, seen);
                let c = chain_entries(*layout, contents, full);
                if ended {
                    lemma_root_fold_ended(a, c.subrange(a.len() as int, c.len() as int));
                } else {
                    assert(seen == full);
                }
            }
        }
    }
    results
}

/// A long-name fragment of the recursive scan: its sequence number (entry
/// byte 0, low five bits), its characters and its checksum.
pub type SeqPart = (u8, Seq<char>, u8);

/// The fragments' characters, last-collected first: on disk the parts of
/// a long name precede its short entry in reverse order, so the part met
/// last holds the name's first characters.
pub open spec fn rev_seq_concat(buf: Seq<SeqPart>) -> Seq<char>
    decreases buf.len(),
{
    if buf.len() == 0 {
        Seq::empty()
    } else {
        buf.last().1 + rev_seq_concat(buf.drop_last())
    }
}

/// Every fragment carries checksum `c`, and there is at least one.
pub open spec fn seq_parts_match(buf: Seq<SeqPart>, c: u8) -> bool {
    buf.len() > 0 && forall|i: int| 0 <= i < buf.len() ==> #[trigger] buf[i].2 == c
}

/// The record for a deleted file entry `e` met by the recursive scan, with
/// `buf` the long-name fragments before it: the fragments joined
/// last-collected first when all checksums match the short name, otherwise a placeholder from the UTF-8 (lossy) base name and
/// extension.
pub open spec fn spec_recursive_deleted(e: Seq<u8>, buf: Seq<SeqPart>) -> DeletedView {
    let start = entry_start(e);
    let valid = seq_parts_match(buf, spec_lfn_checksum(e.subrange(0, 11)));
    (
        if valid {
            rev_seq_concat(buf)
        } else {
            placeholder_name(trim(utf8_lossy(e.subrange(1, 8))), trim(utf8_lossy(e.subrange(8, 11))))
        },
        if valid { long_name_source() } else { short_name_source() },
        start,
        le32(e, 28) as u32,
        2 <= start && start < 0x0FFF_FFF0,
    )
}

/// `e` is a deleted (0xE5), non-long-name, non-directory entry with a data cluster.
pub open spec fn is_deleted_file_entry(e: Seq<u8>) -> bool {
    e.len() == 32 && e[0] == 0xE5 && e[11] != 0x0F && e[11] & 0x10 == 0 && entry_start(e) >= 2
}

pub open spec fn seq_parts_view(v: Seq<(u8, Vec<char>, u8)>) -> Seq<SeqPart> {
    v.map_values(|p: (u8, Vec<char>, u8)| (p.0, p.1@, p.2))
}

proof fn lemma_rev_seq_concat_push(buf: Seq<SeqPart>, p: SeqPart)
    ensures
        rev_seq_concat(buf.push(p)) == p.1 + rev_seq_concat(buf),
{
    assert(buf.push(p).drop_last() =~= buf);
}

fn concat_seq_reversed(buf: &Vec<(u8, Vec<char>, u8)>) -> (r: Vec<char>)
    ensures
        r@ == rev_seq_concat(seq_parts_view(buf@)),
{
    let mut v: Vec<char> = Vec::new();
    let mut k: usize = buf.len();
    assert(buf@.subrange(0, k as int) =~= buf@);
    while k > 0
        invariant
            k <= buf@.len(),
            v@ + rev_seq_concat(seq_parts_view(buf@.subrange(0, k as int))) == rev_seq_concat(seq_parts_view(buf@)),
        decreases k,
    {
        let ghost pre = seq_parts_view(buf@.subrange(0, k - 1));
        assert(seq_parts_view(buf@.subrange(0, k as int)) =~= pre.push((buf@[k - 1].0, buf@[k - 1].1@, buf@[k - 1].2)));
        proof {
            lemma_rev_seq_concat_push(pre, (buf@[k - 1].0, buf@[k - 1].1@, buf@[k - 1].2));
        }
        let part = &buf[k - 1].1;
        let ghost before = v@;
        let mut j: usize = 0;
        while j < part.len()
            invariant
                j <= part@.len(),
                v@ == before + part@.subrange(0, j as int),
            decreases part@.len() - j,
        {
            v.push(part[j]);
            j = j + 1;
            assert(v@ =~= before + part@.subrange(0, j as int));
        }
        assert(v@ =~= before + part@);
        k = k - 1;
        assert(v@ + rev_seq_concat(seq_parts_view(buf@.subrange(0, k as int))) =~= rev_seq_concat(seq_parts_view(buf@)));
    }
    assert(seq_parts_view(buf@.subrange(0, 0)) =~= Seq::<SeqPart>::empty());
    assert(v@ =~= rev_seq_concat(seq_parts_view(buf@)));
    v
}

fn seq_checksums_match(buf: &Vec<(u8, Vec<char>, u8)>, c: u8) -> (r: bool)
    ensures
        r == seq_parts_match(seq_parts_view(buf@), c),
{
    if buf.len() == 0 {
        return false;
    }
    let mut i: usize = 0;
    while i < buf.len()
        invariant
            i <= buf@.len(),
            forall|j: int| 0 <= j < i ==> #[trigger] buf@[j].2 == c,
        decreases buf@.len() - i,
    {
        if buf[i].2 != c {
            assert(seq_parts_view(buf@)[i as int].2 != c);
            return false;
        }
        i = i + 1;
    }
    assert forall|j: int| 0 <= j < seq_parts_view(buf@).len() implies #[trigger] seq_parts_view(buf@)[j].2 == c by {
        assert(buf@[j].2 == c);
    }
    true
}

fn lossy_trimmed(b: &[u8], from: usize, to: usize) -> (r: Vec<char>)
    requires
        from <= to <= b@.len(),
    ensures
        r@ == trim(utf8_lossy(b@.subrange(from as int, to as int))),
{
    let s = utf8_to_string_lossy(&b[from..to]);
    let cs = str_to_chars(s.as_str());
    trim_chars(cs.as_slice())
}

/// The record for a deleted file entry met by the recursive scan.
pub fn recursive_deleted_entry(e: &[u8], buf: &Vec<(u8, Vec<char>, u8)>) -> (d: DeletedEntry)
    requires
        e@.len() == 32,
    ensures
        d@ == spec_recursive_deleted(e@, seq_parts_view(buf@)),
{
    let start = (read_le16(e, 20) as u32) * 65536 + read_le16(e, 26) as u32;
    let size = read_le32(e, 28);
    let cks = lfn_checksum(&e[0..11]);
    let valid = seq_checksums_match(buf, cks);
    let (name, source) = if valid {
        (concat_seq_reversed(buf), owned("long_filename_reconstructed"))
    } else {
        let base = lossy_trimmed(e, 1, 8);
        let ext = lossy_trimmed(e, 8, 11);
        (build_placeholder(&base, &ext), owned("short_name_placeholder"))
    };
    DeletedEntry {
        name: chars_to_string(name.as_slice()),
        name_source: source,
        start_cluster: start,
        size,
        metadata_intact: 2 <= start && start < 0x0FFF_FFF0,
    }
}

/// The cluster numbers of `v` as a set of integers.
pub open spec fn int_set(v: Seq<u32>) -> Set<int> {
    Set::new(|i: int| exists|j: int| 0 <= j < v.len() && v[j] as int == i)
}

proof fn lemma_int_set_push(v: Seq<u32>, x: u32)
    requires
        !v.contains(x),
        int_set(v).finite(),
    ensures
        int_set(v.push(x)) == int_set(v).insert(x as int),
        int_set(v.push(x)).finite(),
        int_set(v.push(x)).len() == int_set(v).len() + 1,
{
    assert(int_set(v.push(x)) =~= int_set(v).insert(x as int)) by {
        assert forall|i: int| #[trigger] int_set(v.push(x)).contains(i) implies int_set(v).insert(x as int).contains(i) by {
            let j = choose|j: int| 0 <= j < v.push(x).len() && v.push(x)[j] as int == i;
            if j < v.len() {
                assert(v[j] as int == i);
            }
        }
        assert forall|i: int| #[trigger] int_set(v).insert(x as int).contains(i) implies int_set(v.push(x)).contains(i) by {
            if i == x as int {
                assert(v.push(x)[v.len() as int] as int == i);
            } else {
                let j = choose|j: int| 0 <= j < v.len() && v[j] as int == i;
                assert(v.push(x)[j] as int == i);
            }
        }
    }
    assert(!int_set(v).contains(x as int)) by {
        if int_set(v).contains(x as int) {
            let j = choose|j: int| 0 <= j < v.len() && v[j] as int == x as int;
            assert(v.contains(x)) by {
                assert(v[j] == x);
            }
        }
    }
}

proof fn lemma_int_set_bound(v: Seq<u32>)
    requires
        int_set(v).finite(),
    ensures
        int_set(v).len() <= 0x1_0000_0000,
{
    vstd::set_lib::lemma_int_range(0, 0x1_0000_0000);
    assert(int_set(v).subset_of(vstd::set_lib::set_int_range(0, 0x1_0000_0000)));
    vstd::set_lib::lemma_len_subset(int_set(v), vstd::set_lib::set_int_range(0, 0x1_0000_0000));
}

proof fn lemma_int_set_empty()
    ensures
        int_set(Seq::<u32>::empty()) == Set::<int>::empty(),
        int_set(Seq::<u32>::empty()).finite(),
{
    assert(int_set(Seq::<u32>::empty()) =~= Set::<int>::empty());
}

/// Every returned record is what `spec_recursive_deleted` makes of some
/// deleted file entry and some long-name fragments.
pub open spec fn recursive_result_ok(out: Seq<DeletedEntry>) -> bool {
    forall|k: int| #![trigger out[k]] 0 <= k < out.len() ==> exists|e: Seq<u8>, buf: Seq<SeqPart>|
        is_deleted_file_entry(e) && out[k]@ == #[trigger] spec_recursive_deleted(e, buf)
}

/// Every record of the recursive scan names a data cluster (2 or above), has
/// its metadata intact exactly when that cluster is below 0x0FFFFFF0, and
/// is named either from its reassembled long name or by a placeholder
/// beginning with `?`.
pub proof fn law_recursive_records_well_formed(out: Seq<DeletedEntry>)
    requires
        recursive_result_ok(out),
    ensures
        forall|k: int| 0 <= k < out.len() ==> {
            &&& (#[trigger] out[k]).start_cluster >= 2
            &&& out[k].metadata_intact == (out[k].start_cluster < 0x0FFF_FFF0)
            &&& (out[k].name_source@ == long_name_source()
                || (out[k].name_source@ == short_name_source() && out[k].name@.len() > 0 && out[k].name@[0] == '?'))
        },
{
    assert forall|k: int| 0 <= k < out.len() implies {
        &&& (#[trigger] out[k]).start_cluster >= 2
        &&& out[k].metadata_intact == (out[k].start_cluster < 0x0FFF_FFF0)
        &&& (out[k].name_source@ == long_name_source()
            || (out[k].name_source@ == short_name_source() && out[k].name@.len() > 0 && out[k].name@[0] == '?'))
    } by {
        let (e, buf) = choose|e: Seq<u8>, buf: Seq<SeqPart>| is_deleted_file_entry(e) && out[k]@ == #[trigger] spec_recursive_deleted(e, buf);
        let valid = seq_parts_match(buf, spec_lfn_checksum(e.subrange(0, 11)));
        if !valid {
            let p = placeholder_name(trim(utf8_lossy(e.subrange(1, 8))), trim(utf8_lossy(e.subrange(8, 11))));
            assert(p[0] == '?');
        }
    }
}

/// Recursive-scan state within one directory: the long-name fragments
/// pending, and the records found.
pub type DirState = (Seq<SeqPart>, Seq<DeletedView>);

/// One directory entry of the recursive scan (end markers excluded): a
/// long-name entry (attribute 0x0F) adds a fragment; any other entry clears
/// the fragments, yielding a record first when it is a deleted file entry.
pub open spec fn dir_step(st: DirState, e: Seq<u8>) -> DirState {
    if e[11] == 0x0F {
        (st.0.push((e[0] & 0x1F, lfn_chars_from(e, 0), e[13])), st.1)
    } else if is_deleted_file_entry(e) {
        (Seq::empty(), st.1.push(spec_recursive_deleted(e, st.0)))
    } else {
        (Seq::empty(), st.1)
    }
}

/// The recursive scan over one directory's entries, in order.
pub open spec fn dir_fold(es: Seq<Seq<u8>>) -> DirState
    decreases es.len(),
{
    if es.len() == 0 {
        (Seq::empty(), Seq::empty())
    } else {
        dir_step(dir_fold(es.drop_last()), es.last())
    }
}

/// The records of the directories scanned, in order.
pub open spec fn dirs_records(dirs: Seq<Seq<Seq<u8>>>) -> Seq<DeletedView>
    decreases dirs.len(),
{
    if dirs.len() == 0 {
        Seq::empty()
    } else {
        dirs_records(dirs.drop_last()) + dir_fold(dirs.last()).1
    }
}

/// Directory entries as read: 32 bytes each, none an end marker.
pub open spec fn entries_ok(es: Seq<Seq<u8>>) -> bool {
    forall|j: int| 0 <= j < es.len() ==> (#[trigger] es[j]).len() == 32 && es[j][0] != 0
}

pub open spec fn dirs_ok(dirs: Seq<Seq<Seq<u8>>>) -> bool {
    forall|i: int| 0 <= i < dirs.len() ==> entries_ok(#[trigger] dirs[i])
}

/// `out` is what the recursive scan makes of some directories' entries.
pub open spec fn tree_scan_of_some_dirs(out: Seq<DeletedView>) -> bool {
    exists|dirs: Seq<Seq<Seq<u8>>>| dirs_ok(dirs) && out == #[trigger] dirs_records(dirs)
}

/// The position of the first end-marker (0x00) entry at or after `k`, or
/// the number of entries when there is none.
pub open spec fn first_end(ents: Seq<Seq<u8>>, k: int) -> int
    decreases ents.len() - k,
{
    if k < 0 || k >= ents.len() {
        ents.len() as int
    } else if ents[k][0] == 0 {
        k
    } else {
        first_end(ents, k + 1)
    }
}

/// A cluster's entries before its first end marker.
pub open spec fn live_entries(bytes: Seq<u8>) -> Seq<Seq<u8>> {
    let ents = entries_of(bytes);
    ents.subrange(0, first_end(ents, 0))
}

proof fn lemma_first_end(ents: Seq<Seq<u8>>, m: int, k: int)
    requires
        0 <= m <= k <= ents.len(),
        forall|j: int| m <= j < k ==> (#[trigger] ents[j])[0] != 0,
        k == ents.len() || ents[k][0] == 0,
    ensures
        first_end(ents, m) == k,
    decreases k - m,
{
    if m < k {
        lemma_first_end(ents, m + 1, k);
    }
}

/// Clusters linked in turn by the device's FAT, all data clusters.
pub open spec fn fat_walk(l: Fat32Layout, contents: Seq<u8>, chain: Seq<u32>) -> bool {
    &&& forall|i: int| 0 <= i < chain.len() ==> #[trigger] chain[i] >= 2
    &&& forall|i: int| 0 <= i < chain.len() - 1 ==> #[trigger] chain[i + 1] == fat_value(contents, l.fat_start + 4 * chain[i])
}

/// The live entries of the clusters of `chain`, in order.
pub open spec fn walk_entries(l: Fat32Layout, contents: Seq<u8>, chain: Seq<u32>) -> Seq<Seq<u8>>
    decreases chain.len(),
{
    if chain.len() == 0 {
        Seq::empty()
    } else {
        walk_entries(l, contents, chain.drop_last()) + live_entries(cluster_bytes(l, contents, chain.last()))
    }
}

/// `d` is a directory as read from a device holding `contents`: the live
/// entries of each cluster along a FAT-linked chain from `start`.
pub open spec fn dir_read(l: Fat32Layout, contents: Seq<u8>, start: u32, d: Seq<Seq<u8>>) -> bool {
    exists|chain: Seq<u32>| #![trigger walk_entries(l, contents, chain)]
        (chain.len() > 0 ==> chain[0] == start) && fat_walk(l, contents, chain) && d == walk_entries(l, contents, chain)
}

/// Cluster `c` lies wholly inside the device.
pub open spec fn cluster_in(l: Fat32Layout, contents: Seq<u8>, c: u32) -> bool {
    l.spec_cluster_offset(c as int) + l.cluster_size <= contents.len()
}

/// The FAT entry of cluster `c` as a faithful, reliable reader gives it:
/// its value when it lies inside the device, end-of-chain otherwise.
pub open spec fn fat_next(l: Fat32Layout, contents: Seq<u8>, c: u32) -> u32 {
    if l.fat_start + 4 * c + 4 <= contents.len() {
        fat_value(contents, l.fat_start + 4 * c)
    } else {
        0x0FFF_FFFF
    }
}

/// The clusters of a directory's chain from cluster `c` on, after the
/// clusters `seen` already walked: the walk stops before a cluster already
/// walked, below 2 or not wholly inside the device, and after a cluster
/// whose FAT entry (see `fat_next`) is 0 or end-of-chain.
pub open spec fn dir_chain(l: Fat32Layout, contents: Seq<u8>, c: u32, seen: Seq<u32>) -> Seq<u32>
    decreases 0x1_0000_0001 - seen.len(),
{
    if seen.len() > 0x1_0000_0000 || seen.contains(c) || c < 2 || !cluster_in(l, contents, c) {
        seen
    } else {
        let nx = fat_next(l, contents, c);
        if nx == 0 || nx >= 0x0FFF_FFF8 {
            seen.push(c)
        } else {
            dir_chain(l, contents, nx, seen.push(c))
        }
    }
}

/// The directory whose first cluster is `start`, read along its whole
/// chain: the live entries of each of its clusters.
pub open spec fn full_dir(l: Fat32Layout, contents: Seq<u8>, start: u32) -> Seq<Seq<u8>> {
    walk_entries(l, contents, dir_chain(l, contents, start, Seq::empty()))
}

/// `e` is a live subdirectory entry whose first cluster is `c`.
pub open spec fn names_subdir(e: Seq<u8>, c: u32) -> bool {
    e[0] != 0xE5 && e[11] != 0x0F && e[11] & 0x10 != 0 && entry_start(e) >= 2 && entry_start(e) == c
}

/// Cluster `c` is named by a live subdirectory entry of one of `dirs`.
pub open spec fn named_in(dirs: Seq<Seq<Seq<u8>>>, c: u32) -> bool {
    exists|j: int, t: int| 0 <= j < dirs.len() && 0 <= t < dirs[j].len() && #[trigger] names_subdir(dirs[j][t], c)
}

proof fn lemma_named_extend(dirs: Seq<Seq<Seq<u8>>>, cur: Seq<Seq<u8>>, e: Seq<u8>, c: u32)
    requires
        named_in(dirs.push(cur), c) || names_subdir(e, c),
    ensures
        named_in(dirs.push(cur.push(e)), c),
{
    let d2 = dirs.push(cur.push(e));
    if names_subdir(e, c) {
        assert(d2[dirs.len() as int][cur.len() as int] == e);
    } else {
        let (j, t) = choose|j: int, t: int| 0 <= j < dirs.push(cur).len() && 0 <= t < dirs.push(cur)[j].len()
            && #[trigger] names_subdir(dirs.push(cur)[j][t], c);
        assert(d2[j][t] == dirs.push(cur)[j][t]);
    }
}

/// A read that runs past the end of a device holding `contents`.
pub open spec fn read_outside(r: (u64, usize), contents: Seq<u8>) -> bool {
    r.0 + r.1 > contents.len()
}

/// Some read after the first `n` of `reads` runs past the end of the device.
pub open spec fn some_read_outside(reads: Seq<(u64, usize)>, n: int, contents: Seq<u8>) -> bool {
    exists|k: int| n <= k < reads.len() && #[trigger] read_outside(reads[k], contents)
}

proof fn lemma_outside_push(reads: Seq<(u64, usize)>, r: (u64, usize), n: int, contents: Seq<u8>)
    requires
        0 <= n <= reads.len(),
        some_read_outside(reads, n, contents) || read_outside(r, contents),
    ensures
        some_read_outside(reads.push(r), n, contents),
{
    let t = reads.push(r);
    if read_outside(r, contents) {
        assert(read_outside(t[reads.len() as int], contents));
    } else {
        let k = choose|k: int| n <= k < reads.len() && #[trigger] read_outside(reads[k], contents);
        assert(t[k] == reads[k]);
        assert(read_outside(t[k], contents));
    }
}

/// A read past the end among the reads after the first `m` of a log stays
/// one among the reads after the first `n <= m` of any longer log that
/// begins with it.
pub proof fn lemma_outside_grow(a: Seq<(u64, usize)>, b: Seq<(u64, usize)>, n: int, m: int, contents: Seq<u8>)
    requires
        some_read_outside(a, m, contents),
        0 <= n <= m,
        a.len() <= b.len(),
        b.subrange(0, a.len() as int) == a,
    ensures
        some_read_outside(b, n, contents),
{
    let w = choose|w: int| m <= w < a.len() && #[trigger] read_outside(a[w], contents);
    assert(b.subrange(0, a.len() as int)[w] == b[w]);
    assert(read_outside(b[w], contents));
}

/// Every cluster named by a live subdirectory entry of `dirs` is in `done`
/// or in `todo`.
pub open spec fn named_tracked(dirs: Seq<Seq<Seq<u8>>>, done: Seq<u32>, todo: Seq<u32>) -> bool {
    forall|k: int, t: int, c: u32| 0 <= k < dirs.len() && 0 <= t < dirs[k].len() && #[trigger] names_subdir(dirs[k][t], c)
        ==> done.contains(c) || todo.contains(c)
}

/// Every cluster named by a live subdirectory entry of `cur` is in `todo`.
pub open spec fn entries_tracked(cur: Seq<Seq<u8>>, todo: Seq<u32>) -> bool {
    forall|t: int, c: u32| 0 <= t < cur.len() && #[trigger] names_subdir(cur[t], c) ==> todo.contains(c)
}

proof fn lemma_contains_push(s: Seq<u32>, x: u32)
    ensures
        forall|c: u32| s.contains(c) ==> #[trigger] s.push(x).contains(c),
        s.push(x).contains(x),
        forall|c: u32| #[trigger] s.push(x).contains(c) ==> s.contains(c) || c == x,
{
    assert(s.push(x)[s.len() as int] == x);
    assert forall|c: u32| s.contains(c) implies #[trigger] s.push(x).contains(c) by {
        let i = choose|i: int| 0 <= i < s.len() && s[i] == c;
        assert(s.push(x)[i] == c);
    }
    assert forall|c: u32| #[trigger] s.push(x).contains(c) implies s.contains(c) || c == x by {
        let i = choose|i: int| 0 <= i < s.push(x).len() && s.push(x)[i] == c;
        if i < s.len() {
            assert(s[i] == c);
        }
    }
}

/// On a device holding `contents`, `out` is what the recursive scan makes of
/// the whole directory tree: the root directory comes first (when the root
/// is a data cluster), each directory is read along its whole chain (see
/// `full_dir`), each other than the root is named by a live subdirectory
/// entry of one read before it, and every cluster that a live
/// subdirectory entry of a directory read names is one of those read.
pub open spec fn tree_scan_complete(out: Seq<DeletedView>, l: Fat32Layout, contents: Seq<u8>) -> bool {
    exists|dirs: Seq<Seq<Seq<u8>>>, starts: Seq<u32>| #![trigger dirs_records(dirs), starts.len()] {
        &&& dirs.len() == starts.len()
        &&& (l.root_cluster >= 2 ==> dirs.len() > 0)
        &&& (dirs.len() > 0 ==> starts[0] == l.root_cluster)
        &&& (forall|k: int| 0 <= k < dirs.len() ==> #[trigger] dirs[k] == full_dir(l, contents, starts[k]))
        &&& (forall|k: int| 0 < k < dirs.len() ==> #[trigger] starts[k] == l.root_cluster || named_in(dirs.subrange(0, k), starts[k]))
        &&& (forall|k: int, t: int, c: u32| 0 <= k < dirs.len() && 0 <= t < dirs[k].len()
            && #[trigger] names_subdir(dirs[k][t], c) ==> starts.contains(c))
        &&& out == dirs_records(dirs)
    }
}

/// On a device holding `contents`, `out` is what the recursive scan makes of
/// directories read from it: the first is the root directory, each other
/// starts at the root or at a cluster named by a live subdirectory entry of
/// a directory scanned before it, and each is the live entries along a
/// FAT-linked chain from its first cluster.
pub open spec fn tree_scan_of(out: Seq<DeletedView>, l: Fat32Layout, contents: Seq<u8>) -> bool {
    exists|dirs: Seq<Seq<Seq<u8>>>, starts: Seq<u32>| #![trigger dirs_records(dirs), starts.len()] {
        &&& dirs.len() == starts.len()
        &&& (dirs.len() > 0 ==> starts[0] == l.root_cluster)
        &&& (forall|k: int| 0 <= k < dirs.len() ==> dir_read(l, contents, #[trigger] starts[k], dirs[k]))
        &&& (forall|k: int| 0 < k < dirs.len() ==> #[trigger] starts[k] == l.root_cluster || named_in(dirs.subrange(0, k), starts[k]))
        &&& out == dirs_records(dirs)
    }
}

/// Scans the whole directory tree from the root: every directory's full
/// cluster chain is read (each chain cluster once, against circular
/// chains; each directory once), deleted file entries become records, and
/// live subdirectory entries are queued. A 0x00 entry ends the entries of
/// its cluster; long-name fragments carry over between the clusters of a
/// directory. The records are exactly what `dir_fold` makes of the entries
/// read, directory by directory. Every read is of a whole data cluster or
/// of one FAT entry. Over a faithful, reliable reader, or over a reader that
/// reads the whole device when no read runs past its end, every directory
/// reachable from the root is read along its whole chain
/// (`tree_scan_complete`).
#[verifier::spinoff_prover]
#[verifier::rlimit(40)]
pub fn scan_deleted_recursive<R: StorageReader>(reader: &mut R, layout: &Fat32Layout) -> (out: Vec<DeletedEntry>)
    requires
        layout.bounded(),
    ensures
        recursive_result_ok(out@),
        tree_scan_of_some_dirs(deleted_views(out@)),
        final(reader).contents() == old(reader).contents(),
        final(reader).faithful() == old(reader).faithful(),
        final(reader).reliable() == old(reader).reliable(),
        final(reader).exact_inside() == old(reader).exact_inside(),
        old(reader).faithful() ==> tree_scan_of(deleted_views(out@), *layout, old(reader).contents()),
        old(reader).faithful() && old(reader).reliable() ==> tree_scan_complete(deleted_views(out@), *layout, old(reader).contents()),
        reads_whole_device(*old(reader)) && old(reader).logs_reads() ==> tree_scan_complete(deleted_views(out@), *layout, old(reader).contents())
            || some_read_outside(final(reader).reads(), old(reader).reads().len() as int, old(reader).contents()),
        final(reader).logs_reads() == old(reader).logs_reads(),
        old(reader).logs_reads() ==> final(reader).reads().subrange(0, old(reader).reads().len() as int) == old(reader).reads()
            && scan_reads_ok(*layout, final(reader).reads(), old(reader).reads().len() as int),
{
    let ghost reads0 = reader.reads();
    let ghost logs = reader.logs_reads();
    let mut results: Vec<DeletedEntry> = Vec::new();
    let mut queue: Vec<u32> = Vec::new();
    queue.push(layout.root_cluster);
    let mut visited: HashSet<u32> = HashSet::new();
    let ghost mut vseq: Seq<u32> = Seq::empty();
    let ghost mut dirs: Seq<Seq<Seq<u8>>> = Seq::empty();
    let ghost mut starts: Seq<u32> = Seq::empty();
    let ghost contents = reader.contents();
    let ghost faithful = reader.faithful();
    let ghost fr = reader.faithful() && reader.reliable();
    let ghost whole = reads_whole_device(*reader);
    let ghost mut outside = false;
    let ghost root = layout.root_cluster;
    proof {
        lemma_int_set_empty();
        assert(deleted_views(results@) =~= dirs_records(dirs));
        assert(queue@[0] == root);
        assert(vseq =~= starts);
    }
    while queue.len() > 0
        invariant
            layout.bounded(),
            recursive_result_ok(results@),
            int_set(vseq).finite(),
            dirs_ok(dirs),
            deleted_views(results@) == dirs_records(dirs),
            reader.contents() == contents,
            reader.faithful() == faithful,
            reader.exact_inside() == old(reader).exact_inside(),
            contents == old(reader).contents(),
            faithful == old(reader).faithful(),
            reader.reliable() == old(reader).reliable(),
            reader.exact_inside() == old(reader).exact_inside(),
            fr == (old(reader).faithful() && old(reader).reliable()),
            whole == reads_whole_device(*old(reader)),
            logs && outside ==> some_read_outside(reader.reads(), reads0.len() as int, contents),
            root == layout.root_cluster,
            starts.len() == dirs.len(),
            dirs.len() > 0 ==> starts[0] == root,
            faithful ==> forall|k: int| 0 <= k < dirs.len() ==> dir_read(*layout, contents, #[trigger] starts[k], dirs[k]),
(fr || (whole && !outside)) ==> forall|k: int| 0 <= k < dirs.len() ==> #[trigger] dirs[k] == full_dir(*layout, contents, starts[k]),
            forall|k: int| 0 < k < dirs.len() ==> #[trigger] starts[k] == root || named_in(dirs.subrange(0, k), starts[k]),
            forall|q: int| 0 <= q < queue@.len() ==> #[trigger] queue@[q] == root || named_in(dirs, queue@[q]),
            dirs.len() == 0 ==> forall|q: int| 0 <= q < queue@.len() ==> #[trigger] queue@[q] == root,
            vseq == starts,
            visited@ == vseq.to_set(),
            named_tracked(dirs, vseq, queue@),
            root >= 2 && dirs.len() == 0 ==> queue@.contains(root),
            reads0 == old(reader).reads(),
            logs == old(reader).logs_reads(),
            reader.logs_reads() == logs,
            logs ==> reader.reads().subrange(0, reads0.len() as int) == reads0
                && scan_reads_ok(*layout, reader.reads(), reads0.len() as int),
        ensures
            queue@.len() == 0,
        decreases 0x1_0000_0000 - int_set(vseq).len(), queue@.len(),
    {
        proof {
            lemma_int_set_bound(vseq);
        }
        let ghost queue0 = queue@;
        let dir_cluster = match queue.pop() {
            Some(c) => c,
            None => break,
        };
        proof {
            assert(queue0 == queue@.push(dir_cluster));
            lemma_contains_push(queue@, dir_cluster);
            lemma_contains_push(vseq, dir_cluster);
            if dirs.len() == 0 {
                assert(queue0[queue0.len() - 1] == root);
                assert(vseq.len() == 0);
            }
        }
        if dir_cluster < 2 || visited.contains(&dir_cluster) {
            proof {
                assert(named_tracked(dirs, vseq, queue@)) by {
                    assert forall|k: int, t: int, c: u32| 0 <= k < dirs.len() && 0 <= t < dirs[k].len()
                        && #[trigger] names_subdir(dirs[k][t], c) implies vseq.contains(c) || queue@.contains(c) by {
                        assert(vseq.contains(c) || queue0.contains(c));
                    }
                }
            }
            continue;
        }
        proof {
            lemma_int_set_push(vseq, dir_cluster);
        }
        let ghost visited0 = vseq;
        let ghost vset0 = visited@;
        visited.insert(dir_cluster);
        proof {
            vseq = vseq.push(dir_cluster);
            assert(visited@ =~= vseq.to_set()) by {
                assert forall|c: u32| visited@.contains(c) == vseq.to_set().contains(c) by {
                    if c != dir_cluster {
                        assert(vseq.contains(c) == visited0.contains(c));
                    }
                }
            }
        }
        proof {
            assert(named_tracked(dirs, vseq, queue@)) by {
                assert forall|k: int, t: int, c: u32| 0 <= k < dirs.len() && 0 <= t < dirs[k].len()
                    && #[trigger] names_subdir(dirs[k][t], c) implies vseq.contains(c) || queue@.contains(c) by {
                    assert(visited0.contains(c) || queue0.contains(c));
                }
            }
        }
        proof {
            lemma_int_set_bound(vseq);
        }
        let mut cluster = dir_cluster;
        let mut chain_seen: HashSet<u32> = HashSet::new();
        let ghost mut cseq: Seq<u32> = Seq::empty();
        let mut lfn: Vec<(u8, Vec<char>, u8)> = Vec::new();
        let ghost mut cur: Seq<Seq<u8>> = Seq::empty();
        let ghost mut chain: Seq<u32> = Seq::empty();
        proof {
            lemma_int_set_empty();
            assert(seq_parts_view(lfn@) =~= dir_fold(cur).0);
            assert(deleted_views(results@) =~= dirs_records(dirs) + dir_fold(cur).1);
            assert forall|q: int| 0 <= q < queue@.len() implies #[trigger] queue@[q] == root || named_in(dirs.push(cur), queue@[q]) by {
                if queue@[q] != root {
                    let (j, t) = choose|j: int, t: int| 0 <= j < dirs.len() && 0 <= t < dirs[j].len() && #[trigger] names_subdir(dirs[j][t], queue@[q]);
                    assert(dirs.push(cur)[j][t] == dirs[j][t]);
                }
            }
            assert(walk_entries(*layout, contents, chain) =~= cur);
        }
        loop
            invariant_except_break
(faithful || (whole && !outside)) && chain.len() > 0 ==> cluster == fat_value(contents, layout.fat_start + 4 * chain[chain.len() - 1]),
                (fr || (whole && !outside)) ==> cseq == chain && dir_chain(*layout, contents, dir_cluster, Seq::empty())
                    == dir_chain(*layout, contents, cluster, chain),
            invariant
                layout.bounded(),
                recursive_result_ok(results@),
                int_set(cseq).finite(),
                int_set(cseq).len() == cseq.len(),
                reader.reliable() == old(reader).reliable(),
                reader.exact_inside() == old(reader).exact_inside(),
                fr == (old(reader).faithful() && old(reader).reliable()),
                whole == reads_whole_device(*old(reader)),
                logs && outside ==> some_read_outside(reader.reads(), reads0.len() as int, contents),
                (fr || (whole && !outside)) ==> forall|k: int| 0 <= k < dirs.len() ==> #[trigger] dirs[k] == full_dir(*layout, contents, starts[k]),
                int_set(vseq).finite(),
                int_set(vseq).len() <= 0x1_0000_0000,
                dirs_ok(dirs),
                entries_ok(cur),
                vseq == starts.push(dir_cluster),
                visited@ == vseq.to_set(),
                chain_seen@ == cseq.to_set(),
                named_tracked(dirs, vseq, queue@),
                entries_tracked(cur, queue@),
                reads0 == old(reader).reads(),
                logs == old(reader).logs_reads(),
                reader.logs_reads() == logs,
                logs ==> reader.reads().subrange(0, reads0.len() as int) == reads0
                    && scan_reads_ok(*layout, reader.reads(), reads0.len() as int),
                seq_parts_view(lfn@) == dir_fold(cur).0,
                deleted_views(results@) == dirs_records(dirs) + dir_fold(cur).1,
                reader.contents() == contents,
                reader.faithful() == faithful,
                reader.reliable() == old(reader).reliable(),
                reader.exact_inside() == old(reader).exact_inside(),
                contents == old(reader).contents(),
                faithful == old(reader).faithful(),
                root == layout.root_cluster,
                starts.len() == dirs.len(),
                dirs.len() > 0 ==> starts[0] == root,
                faithful ==> forall|k: int| 0 <= k < dirs.len() ==> dir_read(*layout, contents, #[trigger] starts[k], dirs[k]),
                forall|k: int| 0 < k < dirs.len() ==> #[trigger] starts[k] == root || named_in(dirs.subrange(0, k), starts[k]),
                dir_cluster == root || named_in(dirs, dir_cluster),
                dirs.len() == 0 ==> dir_cluster == root,
                forall|q: int| 0 <= q < queue@.len() ==> #[trigger] queue@[q] == root || named_in(dirs.push(cur), queue@[q]),
(faithful || (whole && !outside)) ==> fat_walk(*layout, contents, chain) && cur == walk_entries(*layout, contents, chain),
                chain.len() > 0 ==> chain[0] == dir_cluster,
                chain.len() == 0 ==> cluster == dir_cluster,
            ensures
                (fr || (whole && !outside)) ==> chain == dir_chain(*layout, contents, dir_cluster, Seq::empty()),
            decreases 0x1_0000_0001 - int_set(cseq).len(),
        {
            proof {
                lemma_int_set_bound(cseq);
            }
            if chain_seen.contains(&cluster) {
                break;
            }
            let ghost chain_seen0 = cseq;
            proof {
                lemma_int_set_push(cseq, cluster);
            }
            chain_seen.insert(cluster);
            proof {
                lemma_contains_push(chain_seen0, cluster);
                cseq = cseq.push(cluster);
                assert(chain_seen@ =~= cseq.to_set()) by {
                    assert forall|c: u32| chain_seen@.contains(c) == cseq.to_set().contains(c) by {
                        if c != cluster {
                            assert(cseq.contains(c) == chain_seen0.contains(c));
                        }
                    }
                }
            }
            if cluster < 2 {
                break;
            }
            let off = layout.cluster_offset(cluster);
            let ghost log_a = reader.reads();
            let rd = reader.read_range(off, layout.cluster_size as usize);
            proof {
                if logs {
                    lemma_scan_reads_push(*layout, log_a, reads0.len() as int, (off, layout.cluster_size as usize), cluster);
                }
                if !cluster_in(*layout, contents, cluster) {
                    if logs {
                        lemma_outside_push(log_a, (off, layout.cluster_size as usize), reads0.len() as int, contents);
                    }
                    outside = true;
                } else if logs && outside {
                    lemma_outside_push(log_a, (off, layout.cluster_size as usize), reads0.len() as int, contents);
                }
            }
            let bytes = match rd {
                Ok(b) => b,
                Err(_) => {
                    proof {
                        if fr {
                            assert(!cluster_in(*layout, contents, cluster));
                        }
                    }
                    break;
                },
            };
            proof {
                if (fr || (whole && !outside)) {
                    assert(cluster_in(*layout, contents, cluster));
                    assert(chain_seen0.len() <= 0x1_0000_0000);
                }
                if (faithful || (whole && !outside)) {
                    assert(bytes@ == cluster_bytes(*layout, contents, cluster));
                }
            }
            let ghost cur0 = cur;
            let ghost ents = entries_of(bytes@);
            let mut i: usize = 0;
            while i <= bytes.len() && 32 <= bytes.len() - i
                invariant
                    recursive_result_ok(results@),
                    entries_ok(cur),
                    vseq == starts.push(dir_cluster),
                    named_tracked(dirs, vseq, queue@),
                    entries_tracked(cur, queue@),
                    seq_parts_view(lfn@) == dir_fold(cur).0,
                    deleted_views(results@) == dirs_records(dirs) + dir_fold(cur).1,
                    root == layout.root_cluster,
                    forall|q: int| 0 <= q < queue@.len() ==> #[trigger] queue@[q] == root || named_in(dirs.push(cur), queue@[q]),
                    i % 32 == 0,
                    i <= bytes@.len(),
                    ents == entries_of(bytes@),
                    cur == cur0 + ents.subrange(0, i as int / 32),
                    forall|j: int| 0 <= j < i as int / 32 ==> (#[trigger] ents[j])[0] != 0,
                ensures
                    recursive_result_ok(results@),
                    entries_ok(cur),
                    vseq == starts.push(dir_cluster),
                    named_tracked(dirs, vseq, queue@),
                    entries_tracked(cur, queue@),
                    seq_parts_view(lfn@) == dir_fold(cur).0,
                    deleted_views(results@) == dirs_records(dirs) + dir_fold(cur).1,
                    forall|q: int| 0 <= q < queue@.len() ==> #[trigger] queue@[q] == root || named_in(dirs.push(cur), queue@[q]),
                    i <= bytes@.len(),
                    cur == cur0 + ents.subrange(0, i as int / 32),
                    forall|j: int| 0 <= j < i as int / 32 ==> (#[trigger] ents[j])[0] != 0,
                    i as int / 32 == ents.len() || ents[i as int / 32][0] == 0,
                decreases bytes@.len() - i,
            {
                let e = &bytes.as_slice()[i..i + 32];
                proof {
                    assert(e@ == ents[i as int / 32]);
                }
                if e[0] == 0 {
                    break;
                }
                let ghost next_cur = cur.push(e@);
                proof {
                    assert(next_cur.drop_last() =~= cur);
                    assert(entries_ok(next_cur)) by {
                        assert forall|j: int| 0 <= j < next_cur.len() implies (#[trigger] next_cur[j]).len() == 32 && next_cur[j][0] != 0 by {
                            if j < cur.len() {
                                assert(next_cur[j] == cur[j]);
                            }
                        }
                    }
                }
                let ghost before = deleted_views(results@);
                let ghost q_before = queue@;
                let attr = e[11];
                if attr == 0x0F {
                    let part = (e[0] & 0x1F, decode_lfn_chars(e), e[13]);
                    let ghost pv = seq_parts_view(lfn@);
                    lfn.push(part);
                    proof {
                        assert(seq_parts_view(lfn@) =~= pv.push((e@[0] & 0x1F, lfn_chars_from(e@, 0), e@[13])));
                    }
                } else {
                    let deleted = e[0] == 0xE5;
                    let is_dir = attr & 0x10 != 0;
                    let start = (read_le16(e, 20) as u32) * 65536 + read_le16(e, 26) as u32;
                    assert(start == entry_start(e@));
                    if deleted && !is_dir && start >= 2 {
                        let d = recursive_deleted_entry(e, &lfn);
                        let ghost pv = seq_parts_view(lfn@);
                        assert(is_deleted_file_entry(e@));
                        assert(d@ == spec_recursive_deleted(e@, pv));
                        results.push(d);
                        proof {
                            assert(deleted_views(results@) =~= before.push(d@));
                        }
                        assert forall|k: int| #![trigger results@[k]] 0 <= k < results@.len() implies exists|
                            e2: Seq<u8>,
                            buf2: Seq<SeqPart>,
                        | is_deleted_file_entry(e2) && results@[k]@ == #[trigger] spec_recursive_deleted(e2, buf2) by {
                            if k == results@.len() - 1 {
                                assert(results@[k]@ == spec_recursive_deleted(e@, pv));
                            }
                        }
                    } else {
                        assert(!is_deleted_file_entry(e@));
                        if !deleted && is_dir && start >= 2 {
                            // The trimmed name can never equal the space-padded "." or
                            // ".." names, so every live subdirectory is queued; the
                            // visited set skips the dot entries.
                            queue.push(start);
                            proof {
                                assert(names_subdir(e@, start));
                            }
                        }
                    }
                    lfn = Vec::new();
                    proof {
                        assert(seq_parts_view(lfn@) =~= Seq::<SeqPart>::empty());
                    }
                }
                proof {
                    assert(queue@ == q_before || (queue@ == q_before.push(entry_start(e@)) && names_subdir(e@, entry_start(e@))));
                    lemma_contains_push(q_before, entry_start(e@));
                    assert forall|c: u32| q_before.contains(c) implies #[trigger] queue@.contains(c) by {
                        if queue@ != q_before {
                            assert(q_before.push(entry_start(e@)).contains(c));
                        }
                    }
                    assert(named_tracked(dirs, vseq, queue@)) by {
                        assert forall|k: int, t: int, c: u32| 0 <= k < dirs.len() && 0 <= t < dirs[k].len()
                            && #[trigger] names_subdir(dirs[k][t], c) implies vseq.contains(c) || queue@.contains(c) by {
                            assert(vseq.contains(c) || q_before.contains(c));
                        }
                    }
                    assert(entries_tracked(next_cur, queue@)) by {
                        assert forall|t: int, c: u32| 0 <= t < next_cur.len() && #[trigger] names_subdir(next_cur[t], c) implies queue@.contains(c) by {
                            if t < cur.len() {
                                assert(next_cur[t] == cur[t]);
                                assert(q_before.contains(c));
                            } else {
                                assert(next_cur[t] == e@);
                                assert(c == entry_start(e@));
                                assert(queue@ != q_before);
                            }
                        }
                    }
                    assert forall|q: int| 0 <= q < queue@.len() implies #[trigger] queue@[q] == root
                        || named_in(dirs.push(next_cur), queue@[q]) by {
                        if queue@[q] != root {
                            if !named_in(dirs.push(cur), queue@[q]) {
                                assert(names_subdir(e@, queue@[q]));
                            }
                            lemma_named_extend(dirs, cur, e@, queue@[q]);
                        }
                    }
                    assert(next_cur =~= cur0 + ents.subrange(0, i as int / 32 + 1));
                    cur = next_cur;
                }
                i = i + 32;
            }
            proof {
                if (faithful || (whole && !outside)) {
                    let k = i as int / 32;
                    assert(forall|j: int| 0 <= j < k ==> (#[trigger] ents[j])[0] != 0);
                    lemma_first_end(ents, 0, k);
                    let chain2 = chain.push(cluster);
                    assert(chain2.drop_last() =~= chain);
                    assert(bytes@ == cluster_bytes(*layout, contents, cluster));
                    assert(cur =~= walk_entries(*layout, contents, chain2));
                    assert(fat_walk(*layout, contents, chain2)) by {
                        assert forall|t: int| 0 <= t < chain2.len() - 1 implies #[trigger] chain2[t + 1]
                            == fat_value(contents, layout.fat_start + 4 * chain2[t]) by {
                            if t < chain.len() - 1 {
                                assert(chain2[t + 1] == chain[t + 1] && chain2[t] == chain[t]);
                            }
                        }
                    }
                }
                chain = chain.push(cluster);
            }
            let ghost log_b = reader.reads();
            let next = layout.fat_entry(reader, cluster);
            proof {
                if logs {
                    lemma_scan_reads_push(*layout, log_b, reads0.len() as int, (((layout.fat_start + 4 * cluster) as u64), 4usize), cluster);
                }
                if !(layout.fat_start + 4 * cluster + 4 <= contents.len()) {
                    if logs {
                        lemma_outside_push(log_b, (((layout.fat_start + 4 * cluster) as u64), 4usize), reads0.len() as int, contents);
                    }
                    outside = true;
                } else if logs && outside {
                    lemma_outside_push(log_b, (((layout.fat_start + 4 * cluster) as u64), 4usize), reads0.len() as int, contents);
                }
            }
            if next == 0 || next >= 0x0FFF_FFF8 {
                break;
            }
            proof {
                if (fr || (whole && !outside)) {
                    assert(cseq =~= chain);
                }
            }
            cluster = next;
        }
        proof {
            let nd = dirs.push(cur);
            let ns = starts.push(dir_cluster);
            if (fr || (whole && !outside)) {
                assert forall|k: int| 0 <= k < nd.len() implies #[trigger] nd[k] == full_dir(*layout, contents, ns[k]) by {
                    if k < dirs.len() {
                        assert(ns[k] == starts[k] && nd[k] == dirs[k]);
                    }
                }
            }
            if faithful {
                assert(dir_read(*layout, contents, dir_cluster, cur));
                assert forall|k: int| 0 <= k < nd.len() implies dir_read(*layout, contents, #[trigger] ns[k], nd[k]) by {
                    if k < dirs.len() {
                        assert(ns[k] == starts[k] && nd[k] == dirs[k]);
                    }
                }
            }
            assert forall|k: int| 0 < k < nd.len() implies #[trigger] ns[k] == root || named_in(nd.subrange(0, k), ns[k]) by {
                if k < dirs.len() {
                    assert(ns[k] == starts[k]);
                    assert(nd.subrange(0, k) =~= dirs.subrange(0, k));
                } else {
                    assert(nd.subrange(0, k) =~= dirs);
                }
            }
            assert(named_tracked(nd, vseq, queue@)) by {
                assert forall|k: int, t: int, c: u32| 0 <= k < nd.len() && 0 <= t < nd[k].len()
                    && #[trigger] names_subdir(nd[k][t], c) implies vseq.contains(c) || queue@.contains(c) by {
                    if k < dirs.len() {
                        assert(nd[k] == dirs[k]);
                        assert(names_subdir(dirs[k][t], c));
                    } else {
                        assert(nd[k] == cur);
                        assert(names_subdir(cur[t], c));
                    }
                }
            }
            starts = ns;
            assert(nd.drop_last() =~= dirs);
            assert(dirs_ok(nd)) by {
                assert forall|i: int| 0 <= i < nd.len() implies entries_ok(#[trigger] nd[i]) by {
                    if i < dirs.len() {
                        assert(nd[i] == dirs[i]);
                    }
                }
            }
            dirs = nd;
        }
    }
    proof {
        if (fr || (whole && !outside)) {
            assert forall|k: int, t: int, c: u32| 0 <= k < dirs.len() && 0 <= t < dirs[k].len()
                && #[trigger] names_subdir(dirs[k][t], c) implies starts.contains(c) by {
                assert(vseq.contains(c) || queue@.contains(c));
            }
            if root >= 2 && dirs.len() == 0 {
                assert(queue@.contains(root));
            }
            assert(tree_scan_complete(deleted_views(results@), *layout, contents));
        }
    }
    results
}

/// The total length of byte runs.
pub open spec fn runs_total(runs: Seq<(u64, u64)>) -> int
    decreases runs.len(),
{
    if runs.len() == 0 {
        0
    } else {
        runs_total(runs.drop_last()) + runs.last().1
    }
}

/// No run ends where the next begins: physically adjacent clusters were
/// merged into one run.
pub open spec fn runs_merged(runs: Seq<(u64, u64)>) -> bool {
    forall|i: int| 0 < i < runs.len() ==> (#[trigger] runs[i - 1]).0 + runs[i - 1].1 != runs[i].0
}

proof fn lemma_runs_total_nonneg(runs: Seq<(u64, u64)>)
    ensures
        runs_total(runs) >= 0,
        runs.len() > 0 ==> runs_total(runs) >= runs.last().1,
    decreases runs.len(),
{
    if runs.len() > 0 {
        lemma_runs_total_nonneg(runs.drop_last());
    }
}

proof fn lemma_cluster_bytes(n: int, cs: int)
    requires
        n >= 1,
        cs >= 1,
    ensures
        n * cs == cs + (n - 1) * cs,
        (n - 1) * cs >= 0,
{
    assert(n * cs == cs + (n - 1) * cs) by (nonlinear_arith);
    assert((n - 1) * cs >= 0) by (nonlinear_arith)
        requires
            n >= 1,
            cs >= 1;
}

proof fn lemma_chain_runs_total(l: Fat32Layout, chain: Seq<u64>, expected: u64, k: int, acc: Seq<(u64, u64)>, total: u64)
    requires
        l.cluster_size > 0,
        0 <= k <= chain.len(),
        runs_total(acc) == total,
        total <= expected,
        runs_merged(acc),
    ensures
        ({
            let out = spec_chain_runs(l, chain, expected, k, acc, total);
            let cover = total + (chain.len() - k) * l.cluster_size;
            &&& runs_total(out) == (if cover < expected { cover } else { expected as int })
            &&& runs_merged(out)
        }),
    decreases chain.len() - k,
{
    let cs = l.cluster_size as int;
    let n = chain.len() - k;
    if n == 0 {
        assert(n * cs == 0);
    } else {
        lemma_cluster_bytes(n, cs);
        if expected.saturating_sub(total) != 0 {
            let off = l.spec_cluster_offset(chain[k] as int) as u64;
            let rem = expected.saturating_sub(total);
            let add = if (l.cluster_size as u64) < rem { l.cluster_size as u64 } else { rem };
            if acc.len() > 0 && acc.last().0 + acc.last().1 == off {
                lemma_runs_total_nonneg(acc);
                let a2 = acc.update(acc.len() - 1, (acc.last().0, (acc.last().1 + add) as u64));
                assert(a2.drop_last() =~= acc.drop_last());
                assert(runs_total(a2) == runs_total(acc.drop_last()) + acc.last().1 + add);
                assert(runs_merged(a2)) by {
                    assert forall|i: int| 0 < i < a2.len() implies (#[trigger] a2[i - 1]).0 + a2[i - 1].1 != a2[i].0 by {
                        assert(acc[i - 1].0 + acc[i - 1].1 != acc[i].0);
                    }
                }
                lemma_chain_runs_total(l, chain, expected, k + 1, a2, (total + add) as u64);
            } else {
                let a2 = acc.push((off, add));
                assert(a2.drop_last() =~= acc);
                assert(runs_merged(a2)) by {
                    assert forall|i: int| 0 < i < a2.len() implies (#[trigger] a2[i - 1]).0 + a2[i - 1].1 != a2[i].0 by {
                        if i < acc.len() {
                            assert(acc[i - 1].0 + acc[i - 1].1 != acc[i].0);
                        }
                    }
                }
                lemma_chain_runs_total(l, chain, expected, k + 1, a2, (total + add) as u64);
            }
        }
    }
}

proof fn lemma_contiguous_runs(l: Fat32Layout, start: u64, count: nat, expected: u64, k: int, total: u64)
    requires
        l.bounded(),
        l.cluster_size > 0,
        chain_ok(contiguous_chain(start, count)),
        1 <= k <= count,
        count <= 0xFFFF_FFFF,
        total <= expected,
        total < expected ==> total == k * l.cluster_size,
        total <= k * l.cluster_size,
        l.spec_cluster_offset(start as int) + k * l.cluster_size <= 0x1000_0000_0000_0000,
    ensures
        spec_chain_runs(l, contiguous_chain(start, count), expected, k,
            seq![(l.spec_cluster_offset(start as int) as u64, total)], total)
            == seq![(l.spec_cluster_offset(start as int) as u64, (if count * l.cluster_size < expected { count * l.cluster_size } else { expected as int }) as u64)],
    decreases count - k,
{
    let cs = l.cluster_size as int;
    let chain = contiguous_chain(start, count);
    let base = l.spec_cluster_offset(start as int);
    let acc = seq![(base as u64, total)];
    lemma_cluster_bytes(k, cs);
    assert(chain[0] == start);
    assert(base >= 0) by (nonlinear_arith)
        requires
            base == l.data_start + (start - 2) * cs,
            start >= 2,
            cs >= 1;
    if k == count {
        assert(count * cs == k * cs);
        assert(spec_chain_runs(l, chain, expected, k, acc, total) == acc);
    } else if expected.saturating_sub(total) == 0 {
        lemma_cluster_bytes(count as int, cs);
        assert(count * cs >= k * cs) by (nonlinear_arith)
            requires
                count >= k,
                cs >= 1;
        assert(spec_chain_runs(l, chain, expected, k, acc, total) == acc);
    } else {
        assert(start <= 0x2_0000_0000);
        assert(chain[k] == start + k);
        let off = l.spec_cluster_offset(chain[k] as int);
        assert(off == base + k * cs) by (nonlinear_arith)
            requires
                off == l.data_start + (start + k - 2) * cs,
                base == l.data_start + (start - 2) * cs;
        assert(chain[k] <= 0x2_0000_0000);
        assert(off <= 0x0200_0000_0000_0000 + 0x2_0000_0000 * (65535 * 255)) by (nonlinear_arith)
            requires
                off == l.data_start + (chain[k] - 2) * cs,
                l.data_start < 0x0200_0000_0000_0000,
                chain[k] <= 0x2_0000_0000,
                chain[k] >= 2,
                cs <= 65535 * 255;
        let rem = expected.saturating_sub(total);
        let add = if (l.cluster_size as u64) < rem { l.cluster_size as u64 } else { rem };
        assert(acc.last().0 + acc.last().1 == off as u64);
        let a2 = acc.update(acc.len() - 1, (acc.last().0, (acc.last().1 + add) as u64));
        assert(a2 =~= seq![(base as u64, (total + add) as u64)]);
        assert((k + 1) * cs == k * cs + cs) by (nonlinear_arith);
        assert(base + (k + 1) * cs <= 0x1000_0000_0000_0000) by (nonlinear_arith)
            requires
                off == base + k * cs,
                off <= 0x0200_0000_0000_0000 + 0x2_0000_0000 * (65535 * 255),
                cs <= 65535 * 255,
                (k + 1) * cs == k * cs + cs;
        lemma_contiguous_runs(l, start, count, expected, k + 1, (total + add) as u64);
    }
}

/// The runs recovered for a deleted file cover exactly its size, with
/// physically adjacent clusters merged into one run; and when the FAT
/// chain was not intact, the file is taken to lie in one contiguous run
/// from its first cluster.
pub proof fn law_recovered_runs_cover_the_file(l: Fat32Layout, size: u32, start: u32, runs: Seq<(u64, u64)>, intact: bool)
    requires
        l.bounded(),
        l.cluster_size > 0,
        size > 0,
        start >= 2,
        recovered_runs_ok(l, size, start, runs, intact),
    ensures
        runs_total(runs) == size,
        runs_merged(runs),
        !intact ==> runs == seq![(l.spec_cluster_offset(start as int) as u64, size as u64)],
{
    let cs = l.cluster_size as int;
    let count = cluster_count(size, l.cluster_size);
    let chain = choose|chain: Seq<u64>| {
        &&& chain.len() == cluster_count(size, l.cluster_size)
        &&& chain[0] == start
        &&& chain_ok(chain)
        &&& (!intact ==> chain == contiguous_chain(start as u64, cluster_count(size, l.cluster_size)))
        &&& runs == #[trigger] spec_chain_runs(l, chain, size as u64, 0, Seq::empty(), 0)
    };
    assert(count * cs >= size) by (nonlinear_arith)
        requires
            count == (size + cs - 1) / cs,
            cs >= 1;
    assert(count <= 0xFFFF_FFFF) by (nonlinear_arith)
        requires
            count == (size + cs - 1) / cs,
            cs >= 1,
            size <= 0xFFFF_FFFF;
    assert(runs_merged(Seq::<(u64, u64)>::empty()));
    lemma_chain_runs_total(l, chain, size as u64, 0, Seq::empty(), 0);
    if !intact {
        assert(count >= 1) by (nonlinear_arith)
            requires
                count * cs >= size,
                size > 0,
                cs >= 1;
        let base = l.spec_cluster_offset(start as int);
        assert(chain[0] == start);
        let rem = size as u64;
        let add = if (l.cluster_size as u64) < rem { l.cluster_size as u64 } else { rem };
        let a1 = Seq::<(u64, u64)>::empty().push((base as u64, add));
        assert(a1 =~= seq![(base as u64, add)]);
        assert(base + cs <= 0x1000_0000_0000_0000) by (nonlinear_arith)
            requires
                base == l.data_start + (start - 2) * cs,
                l.data_start < 0x0200_0000_0000_0000,
                start <= 0x2_0000_0000,
                start >= 2,
                cs <= 65535 * 255,
                cs >= 1;
        assert(1 * cs == cs);
        lemma_contiguous_runs(l, start as u64, count, size as u64, 1, add);
    }
}

/// The start cluster, size and metadata-intact flag of a deleted short
/// entry.
pub open spec fn deleted_entry_fields_of(e: Seq<u8>) -> (u32, u32, bool) {
    (entry_start(e), le32(e, 28) as u32, 0 < entry_start(e) && entry_start(e) < 0x0FFF_FFF0)
}

/// The fields of every deleted short entry of `es` (first byte 0xE5,
/// attribute not 0x0F) before the first end-of-directory entry (first byte
/// 0x00), in directory order.
pub open spec fn deleted_entry_fields(es: Seq<Seq<u8>>) -> Seq<(u32, u32, bool)>
    decreases es.len(),
{
    if es.len() == 0 || es[0][0] == 0 {
        Seq::empty()
    } else {
        let rest = deleted_entry_fields(es.drop_first());
        if es[0][0] == 0xE5 && es[0][11] != 0x0F {
            seq![deleted_entry_fields_of(es[0])] + rest
        } else {
            rest
        }
    }
}

/// The start cluster, size and intact flag of each record.
pub open spec fn record_fields(v: Seq<DeletedView>) -> Seq<(u32, u32, bool)> {
    v.map_values(|d: DeletedView| (d.2, d.3, d.4))
}

/// `es` holds an end-of-directory entry.
pub open spec fn has_end_entry(es: Seq<Seq<u8>>) -> bool
    decreases es.len(),
{
    es.len() > 0 && (es[0][0] == 0 || has_end_entry(es.drop_first()))
}

proof fn lemma_fields_push(es: Seq<Seq<u8>>, x: Seq<u8>)
    ensures
        has_end_entry(es.push(x)) == (has_end_entry(es) || x[0] == 0),
        deleted_entry_fields(es.push(x)) == (if has_end_entry(es) || x[0] == 0 {
            deleted_entry_fields(es)
        } else if x[0] == 0xE5 && x[11] != 0x0F {
            deleted_entry_fields(es).push(deleted_entry_fields_of(x))
        } else {
            deleted_entry_fields(es)
        }),
    decreases es.len(),
{
    let t = es.push(x);
    if es.len() == 0 {
        assert(t.drop_first() =~= Seq::<Seq<u8>>::empty());
        assert(t[0] == x);
        assert(!has_end_entry(t.drop_first()));
        assert(deleted_entry_fields(t.drop_first()) =~= Seq::<(u32, u32, bool)>::empty());
        assert(deleted_entry_fields(es) =~= Seq::<(u32, u32, bool)>::empty());
        assert(!has_end_entry(es));
        assert(seq![deleted_entry_fields_of(x)] + Seq::<(u32, u32, bool)>::empty() =~= Seq::<(u32, u32, bool)>::empty().push(deleted_entry_fields_of(x)));
    } else {
        assert(t[0] == es[0]);
        assert(t.drop_first() =~= es.drop_first().push(x));
        lemma_fields_push(es.drop_first(), x);
        assert(has_end_entry(t) == (es[0][0] == 0 || has_end_entry(es.drop_first().push(x))));
        assert(has_end_entry(es) == (es[0][0] == 0 || has_end_entry(es.drop_first())));
        if es[0][0] != 0 && es[0][0] == 0xE5 && es[0][11] != 0x0F {
            let h = seq![deleted_entry_fields_of(es[0])];
            let r = deleted_entry_fields(es.drop_first());
            assert(h + r.push(deleted_entry_fields_of(x)) =~= (h + r).push(deleted_entry_fields_of(x)));
        }
    }
}

/// The records of the root scan over directory entries `es` are, field for
/// field, its deleted short entries before the end-of-directory entry, in
/// order: each with the start cluster `(u16 at 20) << 16 | (u16 at 26)`,
/// the size at 28, and metadata intact exactly when that cluster lies in
/// `1 ..= 0x0FFFFFEF`.
pub proof fn law_root_records_follow_entries(es: Seq<Seq<u8>>)
    ensures
        record_fields(root_fold(es).2) == deleted_entry_fields(es),
        root_fold(es).0 == has_end_entry(es),
    decreases es.len(),
{
    if es.len() > 0 {
        let p = es.drop_last();
        let x = es.last();
        law_root_records_follow_entries(p);
        lemma_fields_push(p, x);
        assert(es =~= p.push(x));
        let st = root_fold(p);
        if !st.0 && x[0] != 0 && x[0] == 0xE5 && x[11] != 0x0F {
            let d = spec_root_deleted(x, st.1);
            assert(record_fields(st.2.push(d)) =~= record_fields(st.2).push((d.2, d.3, d.4)));
        }
    }
}

/// The start cluster, size and intact flag the recursive scan records for
/// each deleted file entry of one directory, in order.
pub open spec fn deleted_file_fields(es: Seq<Seq<u8>>) -> Seq<(u32, u32, bool)>
    decreases es.len(),
{
    if es.len() == 0 {
        Seq::empty()
    } else {
        let e = es.last();
        deleted_file_fields(es.drop_last()) + if is_deleted_file_entry(e) {
            seq![(entry_start(e), le32(e, 28) as u32, 2 <= entry_start(e) && entry_start(e) < 0x0FFF_FFF0)]
        } else {
            Seq::empty()
        }
    }
}

proof fn lemma_dir_fold_fields(es: Seq<Seq<u8>>)
    ensures
        record_fields(dir_fold(es).1) == deleted_file_fields(es),
    decreases es.len(),
{
    if es.len() > 0 {
        let p = es.drop_last();
        let e = es.last();
        lemma_dir_fold_fields(p);
        let st = dir_fold(p);
        if e[11] != 0x0F && is_deleted_file_entry(e) {
            let d = spec_recursive_deleted(e, st.0);
            assert(record_fields(st.1.push(d)) =~= record_fields(st.1).push((d.2, d.3, d.4)));
            assert(record_fields(st.1).push((d.2, d.3, d.4)) =~= record_fields(st.1) + seq![(d.2, d.3, d.4)]);
        } else {
            assert(record_fields(st.1) + Seq::<(u32, u32, bool)>::empty() =~= record_fields(st.1));
        }
    }
}

proof fn lemma_dir_records_hold(es: Seq<Seq<u8>>, t: int)
    requires
        0 <= t < es.len(),
        is_deleted_file_entry(es[t]),
    ensures
        exists|m: int| 0 <= m < dir_fold(es).1.len() && (#[trigger] dir_fold(es).1[m]).2 == entry_start(es[t])
            && dir_fold(es).1[m].3 == le32(es[t], 28) as u32,
    decreases es.len(),
{
    lemma_dir_fold_fields(es);
    let p = es.drop_last();
    let st = dir_fold(p);
    if t == es.len() - 1 {
        let d = spec_recursive_deleted(es[t], st.0);
        assert(dir_fold(es).1 == st.1.push(d));
        assert(dir_fold(es).1[st.1.len() as int] == d);
    } else {
        assert(p[t] == es[t]);
        lemma_dir_records_hold(p, t);
        let m = choose|m: int| 0 <= m < dir_fold(p).1.len() && (#[trigger] dir_fold(p).1[m]).2 == entry_start(p[t])
            && dir_fold(p).1[m].3 == le32(p[t], 28) as u32;
        let e = es.last();
        if e[11] != 0x0F && is_deleted_file_entry(e) {
            assert(dir_fold(es).1[m] == st.1[m]);
        } else {
            assert(dir_fold(es).1 == st.1);
        }
    }
}

/// The recursive scan's records of one directory are, field for field, its
/// deleted file entries in order; and across the directories scanned, every
/// deleted file entry (deleted, not a long-name or directory entry, with a
/// data cluster) of every directory has a record with its start cluster
/// and size.
pub proof fn law_tree_records_hold_every_deleted_file(dirs: Seq<Seq<Seq<u8>>>, k: int, t: int)
    requires
        0 <= k < dirs.len(),
        0 <= t < dirs[k].len(),
        is_deleted_file_entry(dirs[k][t]),
    ensures
        record_fields(dir_fold(dirs[k]).1) == deleted_file_fields(dirs[k]),
        exists|m: int| 0 <= m < dirs_records(dirs).len() && (#[trigger] dirs_records(dirs)[m]).2 == entry_start(dirs[k][t])
            && dirs_records(dirs)[m].3 == le32(dirs[k][t], 28) as u32,
    decreases dirs.len(),
{
    lemma_dir_fold_fields(dirs[k]);
    let p = dirs.drop_last();
    let pre = dirs_records(p);
    assert(dirs_records(dirs) == pre + dir_fold(dirs.last()).1);
    if k == dirs.len() - 1 {
        lemma_dir_records_hold(dirs[k], t);
        let m = choose|m: int| 0 <= m < dir_fold(dirs[k]).1.len() && (#[trigger] dir_fold(dirs[k]).1[m]).2 == entry_start(dirs[k][t])
            && dir_fold(dirs[k]).1[m].3 == le32(dirs[k][t], 28) as u32;
        assert(dirs_records(dirs)[pre.len() + m] == dir_fold(dirs[k]).1[m]);
    } else {
        assert(p[k] == dirs[k]);
        law_tree_records_hold_every_deleted_file(p, k, t);
        let m = choose|m: int| 0 <= m < dirs_records(p).len() && (#[trigger] dirs_records(p)[m]).2 == entry_start(p[k][t])
            && dirs_records(p)[m].3 == le32(p[k][t], 28) as u32;
        assert(dirs_records(dirs)[m] == pre[m]);
    }
}


/// A parsed boot sector's cluster is bytes-per-sector (u16 at 11) times
/// sectors-per-cluster (byte 13) long, and cluster `c` starts that many
/// bytes per cluster after cluster 2, at the data area.
pub proof fn law_cluster_size_is_sector_size_times_sectors_per_cluster(b: Seq<u8>, c: int)
    requires
        b.len() >= 48,
    ensures
        spec_fat32_layout(b).cluster_size == (b[11] + 256 * b[12]) * b[13],
        spec_fat32_layout(b).spec_cluster_offset(c)
            == spec_fat32_layout(b).data_start + (c - 2) * ((b[11] + 256 * b[12]) * b[13]),
{
    let bps = b[11] + 256 * b[12];
    assert(0 <= bps * b[13] <= 65535 * 255) by (nonlinear_arith)
        requires
            0 <= bps <= 65535,
            0 <= b[13] <= 255;
}
} // verus!
