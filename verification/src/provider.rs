//! Recovery providers: filesystem metadata recovery for NTFS and FAT32,
//! an explicit provider for unsupported filesystems, and raw carving.

use vstd::prelude::*;
use crate::carve::{
    carve_streaming, carve_streaming_mode, carved_from_contents, carved_from_some_stream, carved_views, lemma_views_drop_first, is_quick_mode, package_hex_ok, package_is_decodable,
    carve_chunk, chunked_after, read_candidate_bytes, signatures_from_package, spec_signature_of, stream_full, stream_limit, streaming_result_ok,
    CarvedFile, CarvedView, Signature,
};
use crate::fat32::{self, recovered_runs_ok, recursive_result_ok, spec_fat32_layout, DeletedEntry, Fat32Layout};
use crate::fragment::{assess, spec_assess, ReconstructionState};
use crate::ntfs::{self, ntfs_boot_ok, scan_result_ok, spec_ntfs_layout, spec_resolve_from, NtfsDeletedRecord, NtfsLayout};
use crate::signatures::SignaturePackage;
use crate::storage::{reads_whole_device, StorageReader};
use vstd::string::StringSliceAdditionalSpecFns;

verus! {

/// One recovered file, with where its bytes come from.
pub enum RecoveredItem {
    Carved { file: CarvedFile, data: Vec<u8> },
    NtfsEntry {
        name: String,
        size: u64,
        is_directory: bool,
        resident_data: Option<Vec<u8>>,
        data_runs: Vec<(u64, u64)>,
        chain_verified: bool,
        reconstruction_state: ReconstructionState,
    },
    Fat32Entry {
        name: String,
        size: u32,
        resident_data: Option<Vec<u8>>,
        data_runs: Vec<(u64, u64)>,
        chain_verified: bool,
        reconstruction_state: ReconstructionState,
    },
}

/// A recovery provider: a filesystem-aware or carving strategy that
/// produces recovered items by reading through a storage reader.
pub trait RecoveryProvider {
    fn name(&self) -> &'static str;

    fn recover<R: StorageReader>(&self, reader: &mut R) -> Vec<RecoveredItem>;
}

/// Sum of the run lengths.
pub open spec fn run_total(runs: Seq<(u64, u64)>) -> int
    decreases runs.len(),
{
    if runs.len() == 0 {
        0
    } else {
        run_total(runs.drop_last()) + runs.last().1
    }
}

pub open spec fn sat_u64(x: int) -> u64 {
    if x > u64::MAX { u64::MAX } else { x as u64 }
}

fn total_length(runs: &Vec<(u64, u64)>) -> (r: u64)
    ensures
        r == sat_u64(run_total(runs@)),
{
    let mut t: u64 = 0;
    let mut k: usize = 0;
    while k < runs.len()
        invariant
            k <= runs@.len(),
            t == sat_u64(run_total(runs@.subrange(0, k as int))),
            run_total(runs@.subrange(0, k as int)) >= 0,
        decreases runs@.len() - k,
    {
        assert(runs@.subrange(0, k + 1).drop_last() =~= runs@.subrange(0, k as int));
        t = t.saturating_add(runs[k].1);
        k = k + 1;
    }
    assert(runs@.subrange(0, k as int) =~= runs@);
    t
}

pub open spec fn opt_bytes(o: Option<Vec<u8>>) -> Option<Seq<u8>> {
    match o {
        Some(v) => Some(v@),
        None => None,
    }
}

/// The item made of a deleted MFT record: resident data is kept as is;
/// otherwise its runs are resolved to byte ranges. The chain counts as
/// verified when the record has runs and the recovered byte count equals
/// its logical size; the reconstruction state is the assessment of that.
pub open spec fn ntfs_item_ok(item: RecoveredItem, layout: NtfsLayout, d: NtfsDeletedRecord) -> bool {
    &&& item matches RecoveredItem::NtfsEntry {
        name,
        size,
        is_directory,
        resident_data,
        data_runs,
        chain_verified,
        reconstruction_state,
    }
    &&& name@ == d.name@
    &&& size == d.logical_size
    &&& is_directory == d.is_directory
    &&& opt_bytes(resident_data) == opt_bytes(d.resident_data)
    &&& data_runs@ == (match d.resident_data {
        Some(_) => Seq::<(u64, u64)>::empty(),
        None => spec_resolve_from(d.data_runs@, layout.cluster_size as u64, d.logical_size, 0, 0),
    })
    &&& {
        let recovered: u64 = match d.resident_data {
            Some(res) => res@.len() as u64,
            None => sat_u64(run_total(data_runs@)),
        };
        &&& chain_verified == (d.data_runs@.len() > 0 && d.logical_size == recovered)
        &&& reconstruction_state == spec_assess(
            d.logical_size,
            recovered,
            chain_verified,
            d.data_runs@.len() as usize,
            recovered > 0 || d.logical_size == 0,
            true,
        ).0
    }
}

fn ntfs_item(layout: &NtfsLayout, d: NtfsDeletedRecord) -> (r: RecoveredItem)
    ensures
        ntfs_item_ok(r, *layout, d),
{
    let ghost d0 = d;
    let NtfsDeletedRecord { mft_record_index, name, logical_size, is_directory, data_runs: runs, resident_data } = d;
    let (resident_data, data_runs, recovered) = match resident_data {
        Some(res) => {
            let n = res.len() as u64;
            (Some(res), Vec::new(), n)
        },
        None => {
            let dr = ntfs::resolve_data_runs(layout, runs.as_slice(), logical_size);
            let t = total_length(&dr);
            (None, dr, t)
        },
    };
    let chain_verified = runs.len() > 0 && logical_size == recovered;
    let a = assess(logical_size, recovered, chain_verified, runs.len(), recovered > 0 || logical_size == 0, true);
    RecoveredItem::NtfsEntry {
        name,
        size: logical_size,
        is_directory,
        resident_data,
        data_runs,
        chain_verified,
        reconstruction_state: a.state,
    }
}

/// The NTFS metadata provider.
pub struct NtfsFilesystemProvider;

/// What NTFS metadata recovery produced: nothing (no usable boot sector),
/// or one item per deleted record, in order, that a full MFT scan of the
/// volume described by some boot sector kept of the records it read.
pub open spec fn ntfs_recovery_ok(items: Seq<RecoveredItem>) -> bool {
    items.len() == 0 || exists|b: Seq<u8>, deleted: Seq<NtfsDeletedRecord>| {
        &&& b.len() == 512
        &&& ntfs_boot_ok(b)
        &&& #[trigger] scan_result_ok(deleted, spec_ntfs_layout(b), true)
        &&& ntfs::full_scan_of_some_reads(ntfs::ntfs_views(deleted), spec_ntfs_layout(b))
        &&& items.len() == deleted.len()
        &&& forall|k: int| 0 <= k < items.len() ==> ntfs_item_ok(#[trigger] items[k], spec_ntfs_layout(b), deleted[k])
    }
}

/// On a device holding `contents`: nothing, or one item per deleted record,
/// in order, that a full MFT scan of the device (its geometry from the
/// device's boot sector) kept.
pub open spec fn ntfs_recovery_from(items: Seq<RecoveredItem>, contents: Seq<u8>) -> bool {
    items.len() == 0 || {
        let l = spec_ntfs_layout(contents.subrange(0, 512));
        &&& 512 <= contents.len()
        &&& ntfs_boot_ok(contents.subrange(0, 512))
        &&& exists|deleted: Seq<NtfsDeletedRecord>| {
            &&& #[trigger] ntfs::full_scan_of(ntfs::ntfs_views(deleted), l, contents)
            &&& items.len() == deleted.len()
            &&& forall|k: int| 0 <= k < items.len() ==> ntfs_item_ok(#[trigger] items[k], l, deleted[k])
        }
    }
}

/// On a device holding `contents`, read in full: one item per deleted
/// record, in order, that the MFT scan keeps of all the device's MFT
/// records (see `mft_full_reads`), the geometry from its boot sector.
pub open spec fn ntfs_recovery_complete(items: Seq<RecoveredItem>, contents: Seq<u8>) -> bool {
    let l = spec_ntfs_layout(contents.subrange(0, 512));
    exists|deleted: Seq<NtfsDeletedRecord>| {
        &&& #[trigger] ntfs::ntfs_views(deleted) == ntfs::kept_records(ntfs::mft_full_reads(l, contents), l.bytes_per_sector as int, true)
        &&& items.len() == deleted.len()
        &&& forall|k: int| 0 <= k < items.len() ==> ntfs_item_ok(#[trigger] items[k], l, deleted[k])
    }
}

impl RecoveryProvider for NtfsFilesystemProvider {
    fn name(&self) -> (r: &'static str)
        ensures
            r@ == "NtfsFilesystemProvider"@,
    {
        "NtfsFilesystemProvider"
    }

    fn recover<R: StorageReader>(&self, reader: &mut R) -> (items: Vec<RecoveredItem>)
        ensures
            ntfs_recovery_ok(items@),
            final(reader).contents() == old(reader).contents(),
            final(reader).faithful() == old(reader).faithful(),
            final(reader).reliable() == old(reader).reliable(),
            final(reader).exact_inside() == old(reader).exact_inside(),
            old(reader).faithful() ==> ntfs_recovery_from(items@, old(reader).contents()),
            reads_whole_device(*old(reader)) && 512 <= old(reader).contents().len()
                && ntfs_boot_ok(old(reader).contents().subrange(0, 512))
                && ntfs::mft_readable(spec_ntfs_layout(old(reader).contents().subrange(0, 512)), old(reader).contents())
                ==> ntfs_recovery_complete(items@, old(reader).contents()),
    {
        let layout = match ntfs::parse_boot_sector(reader) {
            Ok(l) => l,
            Err(_) => return Vec::new(),
        };
        let mut deleted = ntfs::scan_mft_for_deleted_full(reader, &layout);
        let ghost all = deleted@;
        let ghost contents = old(reader).contents();
        let ghost b = choose|b: Seq<u8>| b.len() == 512 && ntfs_boot_ok(b) && layout == #[trigger] spec_ntfs_layout(b);
        let mut items: Vec<RecoveredItem> = Vec::new();
        let ghost mut k: int = 0;
        while deleted.len() > 0
            invariant
                0 <= k <= all.len(),
                deleted@ == all.subrange(k, all.len() as int),
                items@.len() == k,
                forall|j: int| 0 <= j < k ==> ntfs_item_ok(#[trigger] items@[j], layout, all[j]),
            decreases deleted@.len(),
        {
            let ghost prev = deleted@;
            let d = deleted.remove(0);
            proof {
                assert(d == all[k]) by {
                    assert(prev[0] == all.subrange(k, all.len() as int)[0]);
                }
                assert(deleted@ =~= all.subrange(k + 1, all.len() as int));
            }
            items.push(ntfs_item(&layout, d));
            proof {
                k = k + 1;
            }
        }
        proof {
            if items@.len() > 0 {
                assert(scan_result_ok(all, spec_ntfs_layout(b), true));
                assert(ntfs::full_scan_of_some_reads(ntfs::ntfs_views(all), spec_ntfs_layout(b)));
                if old(reader).faithful() {
                    assert(ntfs::full_scan_of(ntfs::ntfs_views(all), layout, contents));
                }
            }
            if reads_whole_device(*old(reader)) && 512 <= contents.len() && ntfs_boot_ok(contents.subrange(0, 512))
                && ntfs::mft_readable(spec_ntfs_layout(contents.subrange(0, 512)), contents) {
                assert(layout == spec_ntfs_layout(contents.subrange(0, 512)));
                assert(ntfs::ntfs_views(all) == ntfs::kept_records(ntfs::mft_full_reads(layout, contents), layout.bytes_per_sector as int, true));
                assert(ntfs_recovery_complete(items@, contents));
            }
        }
        items
    }
}

/// The item made of a deleted FAT32 entry: its cluster chain is followed
/// (or assumed contiguous) into runs, and the reconstruction state is the
/// assessment of the bytes those runs cover against the entry's size.
pub open spec fn fat32_item_ok(item: RecoveredItem, layout: Fat32Layout, e: DeletedEntry) -> bool {
    &&& item matches RecoveredItem::Fat32Entry {
        name,
        size,
        resident_data,
        data_runs,
        chain_verified,
        reconstruction_state,
    }
    &&& name@ == e.name@
    &&& size == e.size
    &&& resident_data is None
    &&& recovered_runs_ok(layout, e.size, e.start_cluster, data_runs@, chain_verified)
    &&& {
        let recovered = sat_u64(run_total(data_runs@));
        reconstruction_state == spec_assess(
            e.size as u64,
            recovered,
            chain_verified,
            data_runs@.len() as usize,
            recovered > 0 || e.size == 0,
            true,
        ).0
    }
}

/// The FAT32 metadata provider.
pub struct Fat32FilesystemProvider;

/// What FAT32 metadata recovery produced: nothing, or one item per deleted
/// entry, in order, that a full directory-tree scan of the volume
/// described by some boot sector made of the directory entries it read.
pub open spec fn fat32_recovery_ok(items: Seq<RecoveredItem>) -> bool {
    items.len() == 0 || exists|b: Seq<u8>, entries: Seq<DeletedEntry>|
        #![trigger spec_fat32_layout(b), recursive_result_ok(entries)]
    {
        &&& b.len() == 512
        &&& spec_fat32_layout(b).bounded()
        &&& recursive_result_ok(entries)
        &&& fat32::tree_scan_of_some_dirs(fat32::deleted_views(entries))
        &&& items.len() == entries.len()
        &&& forall|k: int| 0 <= k < items.len() ==> fat32_item_ok(#[trigger] items[k], spec_fat32_layout(b), entries[k])
    }
}

/// On a device holding `contents`: nothing, or one item per deleted entry,
/// in order, that the recursive scan of the device (its geometry from the
/// device's boot sector) found, each intact chain linked by the device's
/// FAT.
pub open spec fn fat32_recovery_from(items: Seq<RecoveredItem>, contents: Seq<u8>) -> bool {
    items.len() == 0 || {
        let l = spec_fat32_layout(contents.subrange(0, 512));
        &&& 512 <= contents.len()
        &&& exists|entries: Seq<DeletedEntry>| {
            &&& #[trigger] fat32::tree_scan_of(fat32::deleted_views(entries), l, contents)
            &&& items.len() == entries.len()
            &&& forall|k: int| 0 <= k < items.len() ==> fat32_item_ok(#[trigger] items[k], l, entries[k])
                && fat32_item_from_fat(items[k], l, entries[k], contents)
        }
    }
}

/// On a device holding `contents`: one item per deleted entry, in order,
/// that the recursive scan finds over the whole directory tree (see
/// `tree_scan_complete`), the geometry from the device's boot sector, each
/// intact chain linked by the device's FAT.
pub open spec fn fat32_recovery_complete(items: Seq<RecoveredItem>, contents: Seq<u8>) -> bool {
    let l = spec_fat32_layout(contents.subrange(0, 512));
    exists|entries: Seq<DeletedEntry>| {
        &&& #[trigger] fat32::tree_scan_complete(fat32::deleted_views(entries), l, contents)
        &&& items.len() == entries.len()
        &&& forall|k: int| 0 <= k < items.len() ==> fat32_item_ok(#[trigger] items[k], l, entries[k])
            && fat32_item_from_fat(items[k], l, entries[k], contents)
    }
}

/// A FAT32 item's runs, when its chain was intact, follow the device's FAT.
pub open spec fn fat32_item_from_fat(item: RecoveredItem, l: Fat32Layout, e: DeletedEntry, contents: Seq<u8>) -> bool {
    item matches RecoveredItem::Fat32Entry { data_runs, chain_verified, .. }
        && fat32::chain_runs_from_fat(l, e.size, e.start_cluster, data_runs@, chain_verified, contents)
}

impl RecoveryProvider for Fat32FilesystemProvider {
    fn name(&self) -> (r: &'static str)
        ensures
            r@ == "Fat32FilesystemProvider"@,
    {
        "Fat32FilesystemProvider"
    }

    fn recover<R: StorageReader>(&self, reader: &mut R) -> (items: Vec<RecoveredItem>)
        ensures
            fat32_recovery_ok(items@),
            final(reader).contents() == old(reader).contents(),
            final(reader).faithful() == old(reader).faithful(),
            final(reader).reliable() == old(reader).reliable(),
            final(reader).exact_inside() == old(reader).exact_inside(),
            old(reader).faithful() ==> fat32_recovery_from(items@, old(reader).contents()),
            old(reader).faithful() && old(reader).reliable() && 512 <= old(reader).contents().len()
                ==> fat32_recovery_complete(items@, old(reader).contents()),
            final(reader).logs_reads() == old(reader).logs_reads(),
            reads_whole_device(*old(reader)) && old(reader).logs_reads() && 512 <= old(reader).contents().len()
                ==> fat32_recovery_complete(items@, old(reader).contents())
                || fat32::some_read_outside(final(reader).reads(), old(reader).reads().len() as int, old(reader).contents()),
    {
        let layout = match fat32::parse_boot_sector(reader) {
            Ok(l) => l,
            Err(_) => return Vec::new(),
        };
        let ghost log0 = reader.reads();
        let deleted = fat32::scan_deleted_recursive(reader, &layout);
        let ghost log1 = reader.reads();
        let ghost n0 = old(reader).reads().len() as int;
        let ghost contents = old(reader).contents();
        let ghost faithful = old(reader).faithful();
        let ghost b = choose|b: Seq<u8>| b.len() == 512 && layout == #[trigger] spec_fat32_layout(b);
        let mut items: Vec<RecoveredItem> = Vec::new();
        let mut k: usize = 0;
        while k < deleted.len()
            invariant
                layout.bounded(),
                k <= deleted@.len(),
                items@.len() == k,
                forall|j: int| 0 <= j < k ==> fat32_item_ok(#[trigger] items@[j], layout, deleted@[j]),
                reader.contents() == contents,
                reader.faithful() == faithful,
                reader.reliable() == old(reader).reliable(),
                reader.exact_inside() == old(reader).exact_inside(),
                faithful ==> forall|j: int| 0 <= j < k ==> fat32_item_from_fat(#[trigger] items@[j], layout, deleted@[j], contents),
                reader.logs_reads() == old(reader).logs_reads(),
                old(reader).logs_reads() ==> log1.len() <= reader.reads().len()
                    && reader.reads().subrange(0, log1.len() as int) == log1,
                n0 == old(reader).reads().len(),
                faithful == old(reader).faithful(),
                contents == old(reader).contents(),
                old(reader).logs_reads() ==> n0 <= log1.len(),
                reads_whole_device(*old(reader)) && old(reader).logs_reads() ==> (forall|j: int| 0 <= j < k
                    ==> fat32_item_from_fat(#[trigger] items@[j], layout, deleted@[j], contents))
                    || fat32::some_read_outside(reader.reads(), n0, contents),
            decreases deleted@.len() - k,
        {
            let entry = &deleted[k];
            let ghost old_items = items@;
            let ghost lg = reader.reads();
            let ghost had_outside = fat32::some_read_outside(lg, n0, contents);
            let (data_runs, chain_verified) = fat32::recover_file_runs(reader, &layout, entry);
            let ghost dr = data_runs@;
            let ghost cv = chain_verified;
            proof {
                if old(reader).logs_reads() {
                    assert(reader.reads().subrange(0, log1.len() as int) =~= lg.subrange(0, log1.len() as int));
                    if had_outside {
                        fat32::lemma_outside_grow(lg, reader.reads(), n0, n0, contents);
                    }
                    if reads_whole_device(*old(reader)) && fat32::some_read_outside(reader.reads(), lg.len() as int, contents) {
                        assert(reader.reads().subrange(0, reader.reads().len() as int) =~= reader.reads());
                        fat32::lemma_outside_grow(reader.reads(), reader.reads(), n0, lg.len() as int, contents);
                    }
                }
            }
            let expected = entry.size as u64;
            let recovered = total_length(&data_runs);
            let a = assess(expected, recovered, chain_verified, data_runs.len(), recovered > 0 || expected == 0, true);
            items.push(RecoveredItem::Fat32Entry {
                name: entry.name.clone(),
                size: entry.size,
                resident_data: None,
                data_runs,
                chain_verified,
                reconstruction_state: a.state,
            });
            proof {
                if faithful {
                    assert forall|j: int| 0 <= j < k + 1 implies fat32_item_from_fat(#[trigger] items@[j], layout, deleted@[j], contents) by {
                        if j < k {
                            assert(items@[j] == old_items[j]);
                        }
                    }
                }
                if reads_whole_device(*old(reader)) && old(reader).logs_reads()
                    && !fat32::some_read_outside(reader.reads(), n0, contents) {
                    assert(!had_outside);
                    assert(!fat32::some_read_outside(reader.reads(), lg.len() as int, contents));
                    assert(fat32::chain_runs_from_fat(layout, entry.size, entry.start_cluster, dr, cv, contents));
                    assert(fat32_item_from_fat(items@[k as int], layout, deleted@[k as int], contents));
                    assert forall|j: int| 0 <= j < k + 1 implies fat32_item_from_fat(#[trigger] items@[j], layout, deleted@[j], contents) by {
                        if j < k {
                            assert(items@[j] == old_items[j]);
                        }
                    }
                }
            }
            k = k + 1;
        }
        proof {
            if items@.len() > 0 {
                assert(recursive_result_ok(deleted@));
                if faithful {
                    assert(fat32::tree_scan_of(fat32::deleted_views(deleted@), layout, contents));
                }
                assert(fat32::tree_scan_of_some_dirs(fat32::deleted_views(deleted@)));
            }
            if faithful && old(reader).reliable() && 512 <= contents.len() {
                assert(layout == spec_fat32_layout(contents.subrange(0, 512)));
                assert(fat32::tree_scan_complete(fat32::deleted_views(deleted@), layout, contents));
            }
            if reads_whole_device(*old(reader)) && old(reader).logs_reads() && 512 <= contents.len() {
                assert(layout == spec_fat32_layout(contents.subrange(0, 512)));
                if fat32::some_read_outside(log1, log0.len() as int, contents) {
                    fat32::lemma_outside_grow(log1, reader.reads(), n0, log0.len() as int, contents);
                } else if !fat32::some_read_outside(reader.reads(), n0, contents) {
                    assert(fat32::tree_scan_complete(fat32::deleted_views(deleted@), layout, contents));
                    assert(fat32_recovery_complete(items@, contents));
                }
            }
        }
        items
    }
}

/// A detected filesystem without an implementation: it says so by name and
/// recovers nothing.
pub struct UnsupportedFilesystemProvider {
    pub filesystem_name: &'static str,
}

impl RecoveryProvider for UnsupportedFilesystemProvider {
    fn name(&self) -> (r: &'static str)
        ensures
            r@ == self.filesystem_name@,
    {
        self.filesystem_name
    }

    fn recover<R: StorageReader>(&self, reader: &mut R) -> (items: Vec<RecoveredItem>)
        ensures
            items@.len() == 0,
            *final(reader) == *old(reader),
    {
        Vec::new()
    }
}

/// Raw carving over the whole device with the package's signatures.
pub struct RawCarvingProvider {
    pub signature_package: SignaturePackage,
    pub chunk_size: usize,
    pub overlap: usize,
}

/// Carving results: the candidates a streaming carve with the package's
/// signatures reports for the bytes it read, each with the bytes re-read
/// for it (all of them, or none when the re-read failed).
pub open spec fn carving_recovery_ok(items: Seq<RecoveredItem>, pkg: SignaturePackage, quick: bool) -> bool {
    exists|sigs: Seq<crate::carve::Signature>, c: Seq<CarvedView>| {
        &&& sigs.len() == pkg.signatures@.len()
        &&& (forall|i: int| 0 <= i < sigs.len() ==> spec_signature_of(pkg.signatures@[i], #[trigger] sigs[i]))
        &&& #[trigger] streaming_result_ok(c, sigs, quick)
        &&& carved_from_some_stream(c, sigs, quick)
        &&& items.len() == c.len()
        &&& forall|k: int| 0 <= k < items.len() ==> {
            &&& (#[trigger] items[k]) matches RecoveredItem::Carved { file, data }
            &&& file@ == c[k]
            &&& (data@.len() == file.size || data@.len() == 0)
        }
    }
}

/// On a device holding `contents`, every carved item's bytes, when it has
/// any, are the device's bytes at the candidate.
pub open spec fn carved_bytes_from(items: Seq<RecoveredItem>, contents: Seq<u8>) -> bool {
    forall|k: int| 0 <= k < items.len() ==> ((#[trigger] items[k]) matches RecoveredItem::Carved { file, data }
        ==> (data@.len() > 0 ==> file.offset + file.size <= contents.len()
            && data@ == contents.subrange(file.offset as int, file.offset + file.size)))
}

/// On a device holding `contents`: the candidates a streaming carve of the
/// device's bytes from offset 0 reports with the package's signatures (see
/// `carved_from_contents`), each with the device's bytes at it or none.
pub open spec fn carving_recovery_from(items: Seq<RecoveredItem>, pkg: SignaturePackage, quick: bool, contents: Seq<u8>) -> bool {
    &&& carved_bytes_from(items, contents)
    &&& exists|sigs: Seq<crate::carve::Signature>, c: Seq<CarvedView>| {
        &&& sigs.len() == pkg.signatures@.len()
        &&& (forall|i: int| 0 <= i < sigs.len() ==> spec_signature_of(pkg.signatures@[i], #[trigger] sigs[i]))
        &&& #[trigger] carved_from_contents(c, sigs, quick, contents)
        &&& items.len() == c.len()
        &&& forall|k: int| 0 <= k < items.len() ==> ((#[trigger] items[k]) matches RecoveredItem::Carved { file, data } && file@ == c[k])
    }
}

/// The candidates a streaming carve of the whole device reports with the
/// package's signatures (see `stream_full`), in order, each with its bytes.
pub open spec fn carving_full(items: Seq<RecoveredItem>, pkg: SignaturePackage, quick: bool, contents: Seq<u8>) -> bool {
    exists|sigs: Seq<Signature>| #![trigger stream_full(sigs, quick, contents)] {
        &&& sigs.len() == pkg.signatures@.len()
        &&& (forall|i: int| 0 <= i < sigs.len() ==> spec_signature_of(pkg.signatures@[i], #[trigger] sigs[i]))
        &&& stream_full(sigs, quick, contents).len() == items.len()
        &&& forall|k: int| 0 <= k < items.len() ==> ((#[trigger] items[k]) matches RecoveredItem::Carved { file, data }
            && file@ == stream_full(sigs, quick, contents)[k]
            && (file.offset + file.size <= contents.len()
                ==> data@ == contents.subrange(file.offset as int, file.offset + file.size)))
    }
}

/// On a device holding `contents`, every carved item inside the device has
/// the device's bytes at its candidate.
pub open spec fn carved_bytes_inside(items: Seq<RecoveredItem>, contents: Seq<u8>) -> bool {
    forall|k: int| 0 <= k < items.len() ==> ((#[trigger] items[k]) matches RecoveredItem::Carved { file, data }
        ==> (file.offset + file.size <= contents.len() ==> data@ == contents.subrange(file.offset as int, file.offset + file.size)))
}

/// Each candidate with its bytes re-read through the reader.
fn attach_bytes<R: StorageReader>(reader: &mut R, candidates: Vec<CarvedFile>) -> (items: Vec<RecoveredItem>)
    ensures
        items@.len() == candidates@.len(),
        forall|j: int| 0 <= j < items@.len() ==> {
            &&& (#[trigger] items@[j]) matches RecoveredItem::Carved { file, data }
            &&& file@ == candidates@[j]@
            &&& (data@.len() == file.size || data@.len() == 0)
        },
        final(reader).contents() == old(reader).contents(),
        final(reader).faithful() == old(reader).faithful(),
        final(reader).reliable() == old(reader).reliable(),
        final(reader).exact_inside() == old(reader).exact_inside(),
        old(reader).faithful() ==> carved_bytes_from(items@, old(reader).contents()),
        reads_whole_device(*old(reader)) ==> carved_bytes_inside(items@, old(reader).contents()),
        final(reader).logs_reads() == old(reader).logs_reads(),
        old(reader).logs_reads() ==> old(reader).reads().len() <= final(reader).reads().len()
            && final(reader).reads().subrange(0, old(reader).reads().len() as int) == old(reader).reads(),
{
    let ghost all = carved_views(candidates@);
    let mut candidates = candidates;
    let mut items: Vec<RecoveredItem> = Vec::new();
    let ghost mut k: int = 0;
    while candidates.len() > 0
        invariant
            0 <= k <= all.len(),
            carved_views(candidates@) == all.subrange(k, all.len() as int),
            items@.len() == k,
            forall|j: int| 0 <= j < k ==> {
                &&& (#[trigger] items@[j]) matches RecoveredItem::Carved { file, data }
                &&& file@ == all[j]
                &&& (data@.len() == file.size || data@.len() == 0)
            },
            reader.contents() == old(reader).contents(),
            reader.faithful() == old(reader).faithful(),
            reader.reliable() == old(reader).reliable(),
            reader.exact_inside() == old(reader).exact_inside(),
            old(reader).faithful() ==> carved_bytes_from(items@, old(reader).contents()),
            reads_whole_device(*old(reader)) ==> carved_bytes_inside(items@, old(reader).contents()),
            reader.logs_reads() == old(reader).logs_reads(),
            old(reader).logs_reads() ==> old(reader).reads().len() <= reader.reads().len()
                && reader.reads().subrange(0, old(reader).reads().len() as int) == old(reader).reads(),
        decreases candidates@.len(),
    {
        let ghost prev = candidates@;
        let file = candidates.remove(0);
        proof {
            lemma_views_drop_first(prev, candidates@, all, k);
        }
        let ghost log0 = reader.reads();
        let data = read_candidate_bytes(reader, &file);
        proof {
            if old(reader).logs_reads() {
                assert(reader.reads().subrange(0, old(reader).reads().len() as int)
                    =~= log0.subrange(0, old(reader).reads().len() as int));
            }
        }
        let ghost before = items@;
        items.push(RecoveredItem::Carved { file, data });
        proof {
            if reads_whole_device(*old(reader)) {
                assert forall|j: int| 0 <= j < items@.len() implies ((#[trigger] items@[j]) matches RecoveredItem::Carved { file, data }
                    ==> (file.offset + file.size <= old(reader).contents().len()
                        ==> data@ == old(reader).contents().subrange(file.offset as int, file.offset + file.size))) by {
                    if j < before.len() {
                        assert(items@[j] == before[j]);
                    }
                }
            }
            if old(reader).faithful() {
                assert forall|j: int| 0 <= j < items@.len() implies ((#[trigger] items@[j]) matches RecoveredItem::Carved { file, data }
                    ==> (data@.len() > 0 ==> file.offset + file.size <= old(reader).contents().len()
                        && data@ == old(reader).contents().subrange(file.offset as int, file.offset + file.size))) by {
                    if j < before.len() {
                        assert(items@[j] == before[j]);
                    }
                }
            }
            k = k + 1;
        }
    }
    items
}

/// Streaming carve of the device with the package's signatures in `mode`,
/// each candidate with its bytes.
pub fn carve_package<R: StorageReader>(
    reader: &mut R,
    pkg: &SignaturePackage,
    chunk_size: usize,
    overlap: usize,
    mode: &str,
) -> (items: Vec<RecoveredItem>)
    requires
        package_hex_ok(*pkg),
    ensures
        carving_recovery_ok(items@, *pkg, is_quick_mode(mode.spec_bytes())),
        final(reader).contents() == old(reader).contents(),
        final(reader).faithful() == old(reader).faithful(),
        final(reader).reliable() == old(reader).reliable(),
        final(reader).exact_inside() == old(reader).exact_inside(),
        old(reader).faithful() ==> carving_recovery_from(items@, *pkg, is_quick_mode(mode.spec_bytes()), old(reader).contents()),
        reads_whole_device(*old(reader)) ==> carving_full(items@, *pkg, is_quick_mode(mode.spec_bytes()), old(reader).contents()),
        final(reader).logs_reads() == old(reader).logs_reads(),
        old(reader).logs_reads() ==> old(reader).reads().len() <= final(reader).reads().len()
            && final(reader).reads().subrange(0, old(reader).reads().len() as int) == old(reader).reads(),
        old(reader).logs_reads() && reads_whole_device(*old(reader)) ==> exists|m: int| 0 <= m <= final(reader).reads().len()
            && #[trigger] chunked_after(old(reader).reads(), final(reader).reads().subrange(0, m), carve_chunk(chunk_size),
                stream_limit(old(reader).contents().len() as u64, is_quick_mode(mode.spec_bytes()))),
{
    let sigs = signatures_from_package(pkg);
    let candidates = carve_streaming_mode(reader, sigs.as_slice(), chunk_size, overlap, mode);
    let ghost c = carved_views(candidates@);
    let ghost log1 = reader.reads();
    let items = attach_bytes(reader, candidates);
    proof {
        if old(reader).logs_reads() {
            assert(reader.reads().subrange(0, old(reader).reads().len() as int)
                =~= log1.subrange(0, old(reader).reads().len() as int));
            if reads_whole_device(*old(reader)) {
                assert(reader.reads().subrange(0, log1.len() as int) == log1);
                assert(chunked_after(old(reader).reads(), reader.reads().subrange(0, log1.len() as int), carve_chunk(chunk_size),
                    stream_limit(old(reader).contents().len() as u64, is_quick_mode(mode.spec_bytes()))));
            }
        }
        assert(streaming_result_ok(c, sigs@, is_quick_mode(mode.spec_bytes())));
        assert(carved_from_some_stream(c, sigs@, is_quick_mode(mode.spec_bytes())));
    }
    items
}

impl RawCarvingProvider {
    /// Carves the device in `mode` (`quick` in any ASCII case limits the
    /// scan; see `carve_streaming_mode`) and attaches each candidate's
    /// bytes.
    pub fn recover_with_mode<R: StorageReader>(&self, reader: &mut R, mode: &str) -> (items: Vec<RecoveredItem>)
        requires
            package_hex_ok(self.signature_package),
        ensures
            carving_recovery_ok(items@, self.signature_package, is_quick_mode(mode.spec_bytes())),
            final(reader).contents() == old(reader).contents(),
            final(reader).faithful() == old(reader).faithful(),
            final(reader).reliable() == old(reader).reliable(),
            final(reader).exact_inside() == old(reader).exact_inside(),
            old(reader).faithful() ==> carving_recovery_from(items@, self.signature_package,
                is_quick_mode(mode.spec_bytes()), old(reader).contents()),
    {
        carve_package(reader, &self.signature_package, self.chunk_size, self.overlap, mode)
    }
}

impl RecoveryProvider for RawCarvingProvider {
    fn name(&self) -> (r: &'static str)
        ensures
            r@ == "RawCarvingProvider"@,
    {
        "RawCarvingProvider"
    }

    /// Deep-mode carving; a package whose hex texts cannot be decoded
    /// yields nothing.
    fn recover<R: StorageReader>(&self, reader: &mut R) -> (items: Vec<RecoveredItem>)
        ensures
            package_hex_ok(self.signature_package) ==> carving_recovery_ok(items@, self.signature_package, false),
            !package_hex_ok(self.signature_package) ==> items@.len() == 0,
            final(reader).contents() == old(reader).contents(),
            final(reader).faithful() == old(reader).faithful(),
            final(reader).reliable() == old(reader).reliable(),
            final(reader).exact_inside() == old(reader).exact_inside(),
            old(reader).faithful() && package_hex_ok(self.signature_package)
                ==> carving_recovery_from(items@, self.signature_package, false, old(reader).contents()),
    {
        if !package_is_decodable(&self.signature_package) {
            return Vec::new();
        }
        let sigs = signatures_from_package(&self.signature_package);
        let candidates = carve_streaming(reader, sigs.as_slice(), self.chunk_size, self.overlap);
        let ghost c = carved_views(candidates@);
        let items = attach_bytes(reader, candidates);
        proof {
            assert(streaming_result_ok(c, sigs@, false));
            assert(carved_from_some_stream(c, sigs@, false));
        }
        items
    }
}

} // verus!
