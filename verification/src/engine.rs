//! The recovery orchestrator: the device registry, filesystem detection,
//! and the scan pipeline (detection, metadata provider, raw carving) run
//! through a resilient reader.

use vstd::prelude::*;
use crate::bytes::eq_at;
use crate::carve::{carve_chunk, chunked_after, is_quick_mode, opt_str_view, package_hex_ok, stream_limit};
use crate::device::{DeviceAnalysisReport, StatusLevel};
use crate::encryption::{spec_state_name, state_name, DataState};
use crate::ntfs::{looks_like_ntfs, mft_readable, ntfs_boot_ok, spec_looks_like_ntfs, spec_ntfs_layout};
use crate::provider::{
    carve_package, carving_full, carving_recovery_ok, fat32_recovery_complete, fat32_recovery_ok, ntfs_recovery_complete, ntfs_recovery_ok, Fat32FilesystemProvider,
    NtfsFilesystemProvider, RecoveredItem, RecoveryProvider, UnsupportedFilesystemProvider,
};
use crate::resilience::{bad_records_ok, ResilientReader};
use crate::signatures::SignaturePackage;
use crate::storage::{reads_whole_device, StorageReader};
use crate::platform::RawDeviceInfo;
use crate::text::{chars_to_string, eq_ignore_ascii_case_bytes, owned, str_eq, str_to_chars};
use crate::trim::TrimStatus;
use vstd::string::{StringExecFns, StringSliceAdditionalSpecFns};

verus! {

/// A device the engine may scan. Only a source this process can open
/// read-only has a backing path.
pub struct RegisteredDevice {
    pub id: String,
    pub name: String,
    pub category: String,
    pub backing_path: Option<String>,
    pub scan_capable: bool,
    pub unavailable_reason: Option<String>,
}

/// (id, name, category, backing path, scan capable, unavailable reason).
pub type DeviceView = (Seq<char>, Seq<char>, Seq<char>, Option<Seq<char>>, bool, Option<Seq<char>>);

impl View for RegisteredDevice {
    type V = DeviceView;

    open spec fn view(&self) -> DeviceView {
        (
            self.id@,
            self.name@,
            self.category@,
            opt_str_view(self.backing_path),
            self.scan_capable,
            opt_str_view(self.unavailable_reason),
        )
    }
}

fn copy_opt_string(o: &Option<String>) -> (r: Option<String>)
    ensures
        opt_str_view(r) == opt_str_view(*o),
{
    match o {
        Some(s) => Some(s.clone()),
        None => None,
    }
}

impl RegisteredDevice {
    /// A copy with the same contents.
    pub fn copy(&self) -> (r: RegisteredDevice)
        ensures
            r@ == self@,
    {
        RegisteredDevice {
            id: self.id.clone(),
            name: self.name.clone(),
            category: self.category.clone(),
            backing_path: copy_opt_string(&self.backing_path),
            scan_capable: self.scan_capable,
            unavailable_reason: copy_opt_string(&self.unavailable_reason),
        }
    }
}

/// The device registered under `id`, if any (the last entry with that id).
pub open spec fn lookup(s: Seq<DeviceView>, id: Seq<char>) -> Option<DeviceView>
    decreases s.len(),
{
    if s.len() == 0 {
        None
    } else if s.last().0 == id {
        Some(s.last())
    } else {
        lookup(s.drop_last(), id)
    }
}

/// No two entries share an id.
pub open spec fn unique_ids(s: Seq<DeviceView>) -> bool {
    forall|i: int, j: int| 0 <= i < j < s.len() ==> (#[trigger] s[i]).0 != (#[trigger] s[j]).0
}

proof fn lemma_lookup_none(s: Seq<DeviceView>, id: Seq<char>)
    requires
        forall|i: int| 0 <= i < s.len() ==> (#[trigger] s[i]).0 != id,
    ensures
        lookup(s, id) is None,
    decreases s.len(),
{
    if s.len() > 0 {
        assert(s[s.len() - 1].0 != id);
        lemma_lookup_none(s.drop_last(), id);
    }
}

proof fn lemma_lookup_at(s: Seq<DeviceView>, i: int)
    requires
        unique_ids(s),
        0 <= i < s.len(),
    ensures
        lookup(s, s[i].0) == Some(s[i]),
    decreases s.len(),
{
    if i < s.len() - 1 {
        assert(s[s.len() - 1].0 != s[i].0);
        assert(s.drop_last()[i] == s[i]);
        lemma_lookup_at(s.drop_last(), i);
    }
}

proof fn lemma_lookup_found(s: Seq<DeviceView>, id: Seq<char>)
    requires
        lookup(s, id) is Some,
    ensures
        exists|i: int| 0 <= i < s.len() && (#[trigger] s[i]).0 == id && lookup(s, id) == Some(s[i]),
    decreases s.len(),
{
    if s.last().0 != id {
        lemma_lookup_found(s.drop_last(), id);
        let i = choose|i: int| 0 <= i < s.drop_last().len() && (#[trigger] s.drop_last()[i]).0 == id
            && lookup(s.drop_last(), id) == Some(s.drop_last()[i]);
        assert(s[i] == s.drop_last()[i]);
    } else {
        assert(s[s.len() - 1].0 == id);
    }
}

proof fn lemma_lookup_update(s: Seq<DeviceView>, k: int, v: DeviceView)
    requires
        unique_ids(s),
        0 <= k < s.len(),
        s[k].0 == v.0,
    ensures
        unique_ids(s.update(k, v)),
        lookup(s.update(k, v), v.0) == Some(v),
        forall|id: Seq<char>| id != v.0 ==> lookup(s.update(k, v), id) == lookup(s, id),
{
    let nv = s.update(k, v);
    assert forall|i: int, j: int| 0 <= i < j < nv.len() implies (#[trigger] nv[i]).0 != (#[trigger] nv[j]).0 by {
        if i != k && j != k {
            assert(nv[i] == s[i] && nv[j] == s[j]);
        } else if i == k {
            assert(nv[j] == s[j]);
        } else {
            assert(nv[i] == s[i]);
        }
    }
    lemma_lookup_at(nv, k);
    assert forall|id: Seq<char>| id != v.0 implies lookup(nv, id) == lookup(s, id) by {
        if lookup(s, id) is Some {
            lemma_lookup_found(s, id);
            let i = choose|i: int| 0 <= i < s.len() && (#[trigger] s[i]).0 == id && lookup(s, id) == Some(s[i]);
            assert(i != k);
            assert(nv[i] == s[i]);
            lemma_lookup_at(nv, i);
        } else if lookup(nv, id) is Some {
            lemma_lookup_found(nv, id);
            let i = choose|i: int| 0 <= i < nv.len() && (#[trigger] nv[i]).0 == id && lookup(nv, id) == Some(nv[i]);
            assert(i != k);
            assert(nv[i] == s[i]);
            lemma_lookup_at(s, i);
        }
    }
}

proof fn lemma_lookup_push(s: Seq<DeviceView>, v: DeviceView)
    requires
        unique_ids(s),
        forall|i: int| 0 <= i < s.len() ==> (#[trigger] s[i]).0 != v.0,
    ensures
        unique_ids(s.push(v)),
        lookup(s.push(v), v.0) == Some(v),
        forall|id: Seq<char>| id != v.0 ==> lookup(s.push(v), id) == lookup(s, id),
{
    let nv = s.push(v);
    assert(nv.drop_last() =~= s);
    assert forall|i: int, j: int| 0 <= i < j < nv.len() implies (#[trigger] nv[i]).0 != (#[trigger] nv[j]).0 by {
        if j < s.len() {
            assert(nv[i] == s[i] && nv[j] == s[j]);
        } else {
            assert(nv[i] == s[i]);
        }
    }
}

/// Where the device with `id` sits, from position `k` on.
pub open spec fn id_index_from(s: Seq<DeviceView>, id: Seq<char>, k: int) -> Option<int>
    decreases s.len() - k,
{
    if k < 0 || k >= s.len() {
        None
    } else if s[k].0 == id {
        Some(k)
    } else {
        id_index_from(s, id, k + 1)
    }
}

/// The registry after registering `d`: the entry with its id replaced, or
/// `d` added at the end.
pub open spec fn registered(s: Seq<DeviceView>, d: DeviceView) -> Seq<DeviceView> {
    match id_index_from(s, d.0, 0) {
        Some(i) => s.update(i, d),
        None => s.push(d),
    }
}

proof fn lemma_id_index_skip(s: Seq<DeviceView>, id: Seq<char>, k: int)
    requires
        0 <= k < s.len(),
        s[k].0 == id,
        forall|i: int| 0 <= i < k ==> (#[trigger] s[i]).0 != id,
    ensures
        id_index_from(s, id, 0) == Some(k),
{
    assert forall|j: int| 0 <= j <= k implies id_index_from(s, id, j) == Some(k) by {
        lemma_id_index_skip_from(s, id, k, j);
    }
}

proof fn lemma_id_index_skip_from(s: Seq<DeviceView>, id: Seq<char>, k: int, j: int)
    requires
        0 <= j <= k < s.len(),
        s[k].0 == id,
        forall|i: int| 0 <= i < k ==> (#[trigger] s[i]).0 != id,
    ensures
        id_index_from(s, id, j) == Some(k),
    decreases k - j,
{
    if j < k {
        lemma_id_index_skip_from(s, id, k, j + 1);
    }
}

proof fn lemma_id_index_none(s: Seq<DeviceView>, id: Seq<char>, j: int)
    requires
        0 <= j <= s.len(),
        forall|i: int| 0 <= i < s.len() ==> (#[trigger] s[i]).0 != id,
    ensures
        id_index_from(s, id, j) is None,
    decreases s.len() - j,
{
    if j < s.len() {
        lemma_id_index_none(s, id, j + 1);
    }
}

proof fn lemma_id_index_from(s: Seq<DeviceView>, id: Seq<char>, k: int)
    requires
        0 <= k <= s.len(),
    ensures
        id_index_from(s, id, k) matches Some(i) ==> k <= i < s.len() && s[i].0 == id,
        id_index_from(s, id, k) is None ==> forall|j: int| k <= j < s.len() ==> (#[trigger] s[j]).0 != id,
    decreases s.len() - k,
{
    if k < s.len() && s[k].0 != id {
        lemma_id_index_from(s, id, k + 1);
    }
}

/// An id that no registered device carries finds nothing: in particular
/// the empty registry finds nothing, and an id never registered stays
/// unknown whatever else is registered.
pub proof fn law_unregistered_id_finds_nothing(s: Seq<DeviceView>, id: Seq<char>)
    requires
        forall|k: int| 0 <= k < s.len() ==> (#[trigger] s[k]).0 != id,
    ensures
        lookup(s, id) is None,
    decreases s.len(),
{
    if s.len() > 0 {
        assert(s[s.len() - 1].0 != id);
        assert forall|k: int| 0 <= k < s.drop_last().len() implies (#[trigger] s.drop_last()[k]).0 != id by {
            assert(s.drop_last()[k] == s[k]);
        }
        law_unregistered_id_finds_nothing(s.drop_last(), id);
    }
}

/// Registering a device makes it the one found under its id, leaves every
/// other id's device as it was, and keeps ids unique.
pub proof fn law_register_then_lookup(s: Seq<DeviceView>, d: DeviceView)
    requires
        unique_ids(s),
    ensures
        lookup(registered(s, d), d.0) == Some(d),
        forall|id: Seq<char>| id != d.0 ==> lookup(registered(s, d), id) == lookup(s, id),
        unique_ids(registered(s, d)),
{
    lemma_id_index_from(s, d.0, 0);
    match id_index_from(s, d.0, 0) {
        Some(i) => {
            lemma_lookup_update(s, i, d);
        },
        None => {
            lemma_lookup_push(s, d);
        },
    }
}

/// Every device known to the engine, by id. It is filled from discovery and
/// from imaging, never from a client-supplied path.
pub struct DeviceRegistry {
    devices: Vec<RegisteredDevice>,
}

impl View for DeviceRegistry {
    type V = Seq<DeviceView>;

    closed spec fn view(&self) -> Seq<DeviceView> {
        self.devices@.map_values(|d: RegisteredDevice| d@)
    }
}

impl DeviceRegistry {
    #[verifier::type_invariant]
    closed spec fn ids_unique(&self) -> bool {
        unique_ids(self@)
    }

    /// An empty registry.
    pub fn new() -> (r: Self)
        ensures
            r@.len() == 0,
    {
        DeviceRegistry { devices: Vec::new() }
    }

    /// Registers `device`, replacing any device with the same id.
    pub fn register(&mut self, device: RegisteredDevice)
        ensures
            final(self)@ == registered(old(self)@, device@),
            lookup(final(self)@, device.id@) == Some(device@),
            forall|id: Seq<char>| id != device.id@ ==> lookup(final(self)@, id) == lookup(old(self)@, id),
    {
        proof {
            use_type_invariant(&*self);
        }
        let ghost old_view = self@;
        let ghost dv = device@;
        let mut k: usize = 0;
        while k < self.devices.len()
            invariant
                k <= self.devices@.len(),
                old_view == self@,
                old_view == old(self)@,
                dv == device@,
                unique_ids(old_view),
                forall|i: int| 0 <= i < k ==> (#[trigger] old_view[i]).0 != device.id@,
            decreases self.devices@.len() - k,
        {
            assert(old_view[k as int] == self.devices@[k as int]@);
            if str_eq(self.devices[k].id.as_str(), device.id.as_str()) {
                let mut devs: Vec<RegisteredDevice> = Vec::new();
                std::mem::swap(&mut devs, &mut self.devices);
                devs.set(k, device);
                proof {
                    lemma_lookup_update(old_view, k as int, dv);
                    lemma_id_index_skip(old_view, dv.0, k as int);
                    assert(devs@.map_values(|d: RegisteredDevice| d@) =~= old_view.update(k as int, dv));
                }
                self.devices = devs;
                return;
            }
            k = k + 1;
        }
        let mut devs: Vec<RegisteredDevice> = Vec::new();
        std::mem::swap(&mut devs, &mut self.devices);
        devs.push(device);
        proof {
            lemma_lookup_push(old_view, dv);
            lemma_id_index_none(old_view, dv.0, 0);
            assert(devs@.map_values(|d: RegisteredDevice| d@) =~= old_view.push(dv));
        }
        self.devices = devs;
    }

    /// The device registered under `id`.
    pub fn get(&self, id: &str) -> (r: Option<RegisteredDevice>)
        ensures
            match r {
                Some(d) => lookup(self@, id@) == Some(d@),
                None => lookup(self@, id@) is None,
            },
    {
        proof {
            use_type_invariant(&*self);
        }
        let mut k: usize = 0;
        while k < self.devices.len()
            invariant
                k <= self.devices@.len(),
                unique_ids(self@),
                forall|i: int| 0 <= i < k ==> (#[trigger] self@[i]).0 != id@,
            decreases self.devices@.len() - k,
        {
            assert(self@[k as int] == self.devices@[k as int]@);
            if str_eq(self.devices[k].id.as_str(), id) {
                proof {
                    lemma_lookup_at(self@, k as int);
                }
                return Some(self.devices[k].copy());
            }
            k = k + 1;
        }
        proof {
            lemma_lookup_none(self@, id@);
        }
        None
    }

    /// Every registered device, in registration order.
    pub fn list(&self) -> (r: Vec<RegisteredDevice>)
        ensures
            r@.map_values(|d: RegisteredDevice| d@) == self@,
    {
        let mut out: Vec<RegisteredDevice> = Vec::new();
        let mut k: usize = 0;
        while k < self.devices.len()
            invariant
                k <= self.devices@.len(),
                out@.map_values(|d: RegisteredDevice| d@) == self@.subrange(0, k as int),
            decreases self.devices@.len() - k,
        {
            let d = self.devices[k].copy();
            let ghost before = out@;
            out.push(d);
            proof {
                assert(out@.map_values(|d: RegisteredDevice| d@) =~= before.map_values(|d: RegisteredDevice| d@).push(self@[k as int]));
                assert(self@.subrange(0, k + 1) =~= self@.subrange(0, k as int).push(self@[k as int]));
            }
            k = k + 1;
        }
        proof {
            assert(self@.subrange(0, k as int) =~= self@);
        }
        out
    }
}

/// The filesystem a boot sector announces.
#[derive(Clone, Copy, PartialEq, Eq, Structural, Debug)]
pub enum DetectedFilesystem {
    Ntfs,
    Fat32,
    Unknown,
}

pub open spec fn fat32_label() -> Seq<u8> {
    seq![0x46u8, 0x41, 0x54, 0x33, 0x32, 0x20, 0x20, 0x20]
}

/// NTFS by its OEM id; FAT32 by the `FAT32   ` type label at byte 82.
pub open spec fn spec_classify_boot(b: Seq<u8>) -> DetectedFilesystem {
    if spec_looks_like_ntfs(b) {
        DetectedFilesystem::Ntfs
    } else if b.len() >= 90 && b.subrange(82, 90) == fat32_label() {
        DetectedFilesystem::Fat32
    } else {
        DetectedFilesystem::Unknown
    }
}

/// Identifies the filesystem from its boot sector.
pub fn classify_boot_sector(boot: &[u8]) -> (r: DetectedFilesystem)
    ensures
        r == spec_classify_boot(boot@),
{
    if looks_like_ntfs(boot) {
        return DetectedFilesystem::Ntfs;
    }
    if boot.len() >= 90 && eq_at(boot, 82, &[0x46u8, 0x41, 0x54, 0x33, 0x32, 0x20, 0x20, 0x20]) {
        return DetectedFilesystem::Fat32;
    }
    DetectedFilesystem::Unknown
}

/// Reads the 512-byte boot sector (one read, at offset 0) and identifies the
/// filesystem; an unreadable boot sector gives `Unknown`.
pub fn detect_filesystem<R: StorageReader>(reader: &mut R) -> (r: DetectedFilesystem)
    ensures
        r is Unknown || exists|b: Seq<u8>| b.len() == 512 && r == #[trigger] spec_classify_boot(b),
        final(reader).contents() == old(reader).contents(),
        final(reader).faithful() == old(reader).faithful(),
        final(reader).reliable() == old(reader).reliable(),
        final(reader).exact_inside() == old(reader).exact_inside(),
        final(reader).logs_reads() == old(reader).logs_reads(),
        old(reader).logs_reads() ==> final(reader).reads() == old(reader).reads().push((0u64, 512usize)),
        old(reader).faithful() ==> (r is Unknown || (512 <= old(reader).contents().len()
            && r == spec_classify_boot(old(reader).contents().subrange(0, 512)))),
        reads_whole_device(*old(reader)) && 512 <= old(reader).contents().len()
            ==> r == spec_classify_boot(old(reader).contents().subrange(0, 512)),
{
    match reader.read_range(0, 512) {
        Ok(b) => classify_boot_sector(b.as_slice()),
        Err(_) => DetectedFilesystem::Unknown,
    }
}

/// Why a scan could not start.
pub enum ScanError {
    DeviceNotFound,
    DeviceNotScanCapable(String),
    OpenFailed(String),
}

/// The error for the source registered under `id`, or its backing path:
/// not found; not scan-capable (with its reason, or a default one); no
/// backing path.
pub open spec fn spec_scan_source(d: Option<DeviceView>) -> Result<Seq<char>, Option<Seq<char>>> {
    match d {
        None => Err(None),
        Some(v) => if !v.4 {
            Err(Some(match v.5 {
                Some(reason) => reason,
                None => "device is not scan-capable"@,
            }))
        } else {
            match v.3 {
                Some(path) => Ok(path),
                None => Err(Some("no backing path registered"@)),
            }
        },
    }
}

pub open spec fn scan_source_view(r: Result<String, ScanError>) -> Result<Seq<char>, Option<Seq<char>>> {
    match r {
        Ok(p) => Ok(p@),
        Err(ScanError::DeviceNotFound) => Err(None),
        Err(ScanError::DeviceNotScanCapable(m)) => Err(Some(m@)),
        Err(ScanError::OpenFailed(m)) => Err(Some(m@)),
    }
}

/// Resolves a device id to the path to open read-only. Only ids the
/// registry knows resolve; nothing here takes a path from a client.
pub fn resolve_scan_source(registry: &DeviceRegistry, device_id: &str) -> (r: Result<String, ScanError>)
    ensures
        scan_source_view(r) == spec_scan_source(lookup(registry@, device_id@)),
        !(r matches Err(ScanError::OpenFailed(_))),
{
    let device = match registry.get(device_id) {
        Some(d) => d,
        None => return Err(ScanError::DeviceNotFound),
    };
    if !device.scan_capable {
        return Err(ScanError::DeviceNotScanCapable(match device.unavailable_reason {
            Some(reason) => reason,
            None => owned("device is not scan-capable"),
        }));
    }
    match device.backing_path {
        Some(path) => Ok(path),
        None => Err(ScanError::DeviceNotScanCapable(owned("no backing path registered"))),
    }
}

/// A scan only ever opens the backing path of a registered, scan-capable
/// device: never a path that came from the request itself.
pub proof fn law_scan_opens_only_registered_paths(devices: Seq<DeviceView>, id: Seq<char>, path: Seq<char>)
    requires
        spec_scan_source(lookup(devices, id)) == Ok::<Seq<char>, Option<Seq<char>>>(path),
    ensures
        exists|k: int| 0 <= k < devices.len() && (#[trigger] devices[k]).0 == id && devices[k].4 && devices[k].3 == Some(path),
{
    lemma_lookup_found(devices, id);
}

/// The pre-scan analysis of a device.
pub struct DeviceAnalysis {
    pub trim_status: Option<TrimStatus>,
    pub encryption_status: String,
    pub bad_sector_count: usize,
}

/// What a scan produced.
pub struct EngineResult {
    pub filesystem: String,
    pub metadata_provider_name: Option<String>,
    pub items: Vec<RecoveredItem>,
    pub analysis: DeviceAnalysis,
}

/// The name a detected filesystem is reported under.
pub open spec fn fs_name(fs: DetectedFilesystem) -> Seq<char> {
    match fs {
        DetectedFilesystem::Ntfs => "NTFS"@,
        DetectedFilesystem::Fat32 => "FAT32"@,
        DetectedFilesystem::Unknown => "Unknown"@,
    }
}

/// The metadata provider that runs for a detected filesystem.
pub open spec fn provider_name(fs: DetectedFilesystem) -> Option<Seq<char>> {
    match fs {
        DetectedFilesystem::Ntfs => Some("NtfsFilesystemProvider"@),
        DetectedFilesystem::Fat32 => Some("Fat32FilesystemProvider"@),
        DetectedFilesystem::Unknown => None,
    }
}

/// What metadata recovery produced for a detected filesystem.
pub open spec fn metadata_ok(fs: DetectedFilesystem, items: Seq<RecoveredItem>) -> bool {
    match fs {
        DetectedFilesystem::Ntfs => ntfs_recovery_ok(items),
        DetectedFilesystem::Fat32 => fat32_recovery_ok(items),
        DetectedFilesystem::Unknown => items.len() == 0,
    }
}

/// The carving chunk and overlap a mode uses: as configured in deep mode
/// (`deep`, any ASCII case), otherwise capped at 1 MiB and 256 KiB.
pub open spec fn effective_chunking(mode: Seq<u8>, chunk: usize, overlap: usize) -> (usize, usize) {
    if crate::text::eq_ascii_nocase(mode, seq![0x64u8, 0x65, 0x65, 0x70]) {
        (chunk, overlap)
    } else {
        (if chunk < 1048576 { chunk } else { 1048576 }, if overlap < 262144 { overlap } else { 262144 })
    }
}

/// A scan result: the filesystem a boot sector announced, the metadata
/// provider's items followed by the carved items, and the analysis made of
/// the given encryption and TRIM findings.
pub open spec fn engine_result_ok(
    r: EngineResult,
    pkg: SignaturePackage,
    mode: Seq<u8>,
    encryption: DataState,
    trim_status: Option<TrimStatus>,
) -> bool {
    exists|fs: DetectedFilesystem, meta: Seq<RecoveredItem>, carved: Seq<RecoveredItem>|
        #![trigger metadata_ok(fs, meta), carving_recovery_ok(carved, pkg, is_quick_mode(mode))]
    {
        &&& (fs is Unknown || exists|b: Seq<u8>| b.len() == 512 && fs == #[trigger] spec_classify_boot(b))
        &&& r.filesystem@ == fs_name(fs)
        &&& opt_str_view(r.metadata_provider_name) == provider_name(fs)
        &&& metadata_ok(fs, meta)
        &&& carving_recovery_ok(carved, pkg, is_quick_mode(mode))
        &&& r.items@ == meta + carved
        &&& r.analysis.encryption_status@ == spec_state_name(encryption)
        &&& r.analysis.trim_status == trim_status
    }
}

/// The first 4096 bytes of the device, read for the encryption pre-check;
/// unreadable sectors come back zero-filled and are added to the reader's
/// bad-sector map.
pub fn read_boot_sample<R: StorageReader>(reader: &mut ResilientReader<R>) -> (r: Vec<u8>)
    ensures
        r@.len() == 4096,
        final(reader).retries() == old(reader).retries(),
        final(reader).bad_map().len() >= old(reader).bad_map().len(),
        final(reader).bad_map().subrange(0, old(reader).bad_map().len() as int) == old(reader).bad_map(),
        exists|sector: int| sector > 0 && #[trigger] bad_records_ok(
            final(reader).bad_map().subrange(old(reader).bad_map().len() as int, final(reader).bad_map().len() as int),
            r@, 0, 4096, sector, old(reader).retries()),
{
    reader.read_resilient(0, 4096)
}

/// The scan pipeline on an opened device: filesystem detection, the
/// matching metadata provider, then streaming raw carving (chunking as in
/// `effective_chunking`), all through the resilient reader, whose
/// bad-sector count is reported.
pub fn scan_reader_with_mode<R: StorageReader>(
    reader: &mut ResilientReader<R>,
    signature_package: &SignaturePackage,
    carve_chunk_size: usize,
    carve_overlap: usize,
    mode: &str,
    encryption: DataState,
    trim_status: Option<TrimStatus>,
) -> (r: EngineResult)
    requires
        package_hex_ok(*signature_package),
    ensures
        engine_result_ok(r, *signature_package, mode.spec_bytes(), encryption, trim_status),
        r.analysis.bad_sector_count == final(reader).bad_map().len(),
        reads_whole_device(*old(reader)) && 512 <= old(reader).contents().len() ==> {
            let fs = spec_classify_boot(old(reader).contents().subrange(0, 512));
            r.filesystem@ == fs_name(fs) && opt_str_view(r.metadata_provider_name) == provider_name(fs)
        },
        reads_whole_device(*old(reader)) ==> exists|k: int| 0 <= k <= r.items@.len()
            && #[trigger] carving_full(r.items@.subrange(k, r.items@.len() as int), *signature_package,
                is_quick_mode(mode.spec_bytes()), old(reader).contents()),
        reads_whole_device(*old(reader)) && 512 <= old(reader).contents().len()
            && spec_classify_boot(old(reader).contents().subrange(0, 512)) is Ntfs
            && ntfs_boot_ok(old(reader).contents().subrange(0, 512))
            && mft_readable(spec_ntfs_layout(old(reader).contents().subrange(0, 512)), old(reader).contents())
            ==> exists|k: int| 0 <= k <= r.items@.len() && #[trigger] ntfs_recovery_complete(r.items@.subrange(0, k), old(reader).contents()),
        reads_whole_device(*old(reader)) && 512 <= old(reader).contents().len()
            && spec_classify_boot(old(reader).contents().subrange(0, 512)) is Fat32
            ==> (exists|k: int| 0 <= k <= r.items@.len() && #[trigger] fat32_recovery_complete(r.items@.subrange(0, k), old(reader).contents()))
            || crate::fat32::some_read_outside(final(reader).reads(), old(reader).reads().len() as int, old(reader).contents()),
        reads_whole_device(*old(reader)) ==> exists|j: int, m: int| 0 <= j <= m <= final(reader).reads().len()
            && #[trigger] chunked_after(final(reader).reads().subrange(0, j), final(reader).reads().subrange(0, m),
                carve_chunk(effective_chunking(mode.spec_bytes(), carve_chunk_size, carve_overlap).0),
                stream_limit(old(reader).contents().len() as u64, is_quick_mode(mode.spec_bytes()))),
{
    let ghost tstat = trim_status;
    let ghost whole = reads_whole_device(*reader);
    let ghost contents = reader.contents();
    let fs = detect_filesystem(reader);
    let (fs_label, metadata_items, provider) = match fs {
        DetectedFilesystem::Ntfs => {
            let p = NtfsFilesystemProvider;
            let items = p.recover(reader);
            (owned("NTFS"), items, Some(owned(p.name())))
        },
        DetectedFilesystem::Fat32 => {
            let p = Fat32FilesystemProvider;
            let items = p.recover(reader);
            (owned("FAT32"), items, Some(owned(p.name())))
        },
        DetectedFilesystem::Unknown => {
            let p = UnsupportedFilesystemProvider { filesystem_name: "Unknown/Unimplemented" };
            let items = p.recover(reader);
            (owned("Unknown"), items, None)
        },
    };
    let deep = eq_ignore_ascii_case_bytes(mode.as_bytes(), &[0x64u8, 0x65, 0x65, 0x70]);
    let (chunk, overlap) = if deep {
        (carve_chunk_size, carve_overlap)
    } else {
        (
            if carve_chunk_size < 1048576 { carve_chunk_size } else { 1048576 },
            if carve_overlap < 262144 { carve_overlap } else { 262144 },
        )
    };
    assert(reads_whole_device(*reader) == whole && reader.contents() == contents);
    assert((chunk, overlap) == effective_chunking(mode.spec_bytes(), carve_chunk_size, carve_overlap));
    let ghost log_before = reader.reads();
    let ghost log_start = old(reader).reads();
    let carved = carve_package(reader, signature_package, chunk, overlap, mode);
    let ghost log_after = reader.reads();
    let ghost meta = metadata_items@;
    let ghost carved_v = carved@;
    let mut items = metadata_items;
    let mut carved = carved;
    items.append(&mut carved);
    let bad_sector_count = reader.bad_sector_count();
    let r = EngineResult {
        filesystem: fs_label,
        metadata_provider_name: provider,
        items,
        analysis: DeviceAnalysis { trim_status, encryption_status: state_name(encryption), bad_sector_count },
    };
    proof {
        assert(metadata_ok(fs, meta));
        assert(carving_recovery_ok(carved_v, *signature_package, is_quick_mode(mode.spec_bytes())));
        assert(r.items@.subrange(meta.len() as int, r.items@.len() as int) =~= carved_v);
        assert(r.items@.subrange(0, meta.len() as int) =~= meta);
        if whole && crate::fat32::some_read_outside(log_before, log_start.len() as int, contents) {
            let w = choose|w: int| log_start.len() <= w < log_before.len() && #[trigger] crate::fat32::read_outside(log_before[w], contents);
            assert(log_after.subrange(0, log_before.len() as int)[w] == log_after[w]);
            assert(crate::fat32::read_outside(log_after[w], contents));
        }
        if whole {
            let m = choose|m: int| 0 <= m <= log_after.len()
                && #[trigger] chunked_after(log_before, log_after.subrange(0, m), carve_chunk(chunk),
                    stream_limit(contents.len() as u64, is_quick_mode(mode.spec_bytes())));
            let j = log_before.len() as int;
            assert(log_after.subrange(0, m).subrange(0, j) == log_before);
            assert(log_after.subrange(0, j) =~= log_before);
            assert(chunked_after(log_after.subrange(0, j), log_after.subrange(0, m), carve_chunk(chunk),
                stream_limit(contents.len() as u64, is_quick_mode(mode.spec_bytes()))));
            assert(carving_full(r.items@.subrange(meta.len() as int, r.items@.len() as int), *signature_package,
                is_quick_mode(mode.spec_bytes()), contents));
        }
    }
    r
}

/// The report a scan's analysis gives: TRIM confirmed when detected, the
/// encryption finding (`Encrypted` confirmed, `Compressed` possible), bad
/// sectors confirmed when any was recorded; everything else unknown.
pub open spec fn report_ok(r: DeviceAnalysisReport, a: DeviceAnalysis, fs: Seq<char>) -> bool {
    &&& r.filesystem@ == fs
    &&& r.capacity == 0
    &&& r.sector_size == 512
    &&& r.health == StatusLevel::Unknown
    &&& r.trim == (if a.trim_status is Some { StatusLevel::Confirmed } else { StatusLevel::Unknown })
    &&& r.encryption == (if a.encryption_status@ == "Encrypted"@ {
        StatusLevel::Confirmed
    } else if a.encryption_status@ == "Compressed"@ {
        StatusLevel::Possible
    } else {
        StatusLevel::Unknown
    })
    &&& r.read_accessibility == StatusLevel::Unknown
    &&& r.bad_sectors == (if a.bad_sector_count > 0 { StatusLevel::Confirmed } else { StatusLevel::Unknown })
}

/// The report of a device analysis on filesystem `fs` (see `report_ok`).
pub fn build_device_analysis_report(analysis: &DeviceAnalysis, fs: &str) -> (r: DeviceAnalysisReport)
    ensures
        report_ok(r, *analysis, fs@),
{
    let trim = match &analysis.trim_status {
        Some(_) => StatusLevel::Confirmed,
        None => StatusLevel::Unknown,
    };
    let encryption = if str_eq(analysis.encryption_status.as_str(), "Encrypted") {
        StatusLevel::Confirmed
    } else if str_eq(analysis.encryption_status.as_str(), "Compressed") {
        StatusLevel::Possible
    } else {
        StatusLevel::Unknown
    };
    let bad_sectors = if analysis.bad_sector_count > 0 { StatusLevel::Confirmed } else { StatusLevel::Unknown };
    DeviceAnalysisReport {
        filesystem: owned(fs),
        capacity: 0,
        sector_size: 512,
        health: StatusLevel::Unknown,
        trim,
        encryption,
        read_accessibility: StatusLevel::Unknown,
        bad_sectors,
    }
}

/// The source to image: the registered device and its backing path.
pub fn resolve_image_source(registry: &DeviceRegistry, source_device_id: &str) -> (r: Result<(RegisteredDevice, String), ScanError>)
    ensures
        match r {
            Ok((d, p)) => lookup(registry@, source_device_id@) == Some(d@) && d@.3 == Some(p@),
            Err(ScanError::DeviceNotFound) => lookup(registry@, source_device_id@) is None,
            Err(ScanError::DeviceNotScanCapable(m)) => lookup(registry@, source_device_id@) matches Some(v)
                && v.3 is None && m@ == "source has no accessible backing path to image"@,
            Err(ScanError::OpenFailed(_)) => false,
        },
{
    let source = match registry.get(source_device_id) {
        Some(d) => d,
        None => return Err(ScanError::DeviceNotFound),
    };
    match copy_opt_string(&source.backing_path) {
        Some(p) => Ok((source, p)),
        None => Err(ScanError::DeviceNotScanCapable(owned("source has no accessible backing path to image"))),
    }
}

/// The device an image of `source` registers as: scan-capable, backed by
/// the image file, named after the source.
pub fn imaged_device(source: &RegisteredDevice, new_id: String, img_path: String) -> (r: RegisteredDevice)
    ensures
        r.id@ == new_id@,
        r.name@ == "Imaged copy of "@ + source.name@,
        r.category@ == "imaged-volume"@,
        opt_str_view(r.backing_path) == Some(img_path@),
        r.scan_capable,
        r.unavailable_reason is None,
{
    let mut name = owned("Imaged copy of ");
    name.append(source.name.as_str());
    RegisteredDevice {
        id: new_id,
        name,
        category: owned("imaged-volume"),
        backing_path: Some(img_path),
        scan_capable: true,
        unavailable_reason: None,
    }
}

/// The last `.` among the first `n` characters of a file name, not
/// counting one in first position: what separates stem from extension.
pub open spec fn last_dot_before(name: Seq<char>, n: int) -> Option<int>
    decreases n,
{
    if n <= 1 {
        None
    } else if name[n - 1] == '.' {
        Some(n - 1)
    } else {
        last_dot_before(name, n - 1)
    }
}

/// A file of the images directory is a managed image when its extension
/// (after its last `.`, which is not its first character) is `img`.
pub open spec fn is_managed_image(name: Seq<char>) -> bool {
    last_dot_before(name, name.len() as int) matches Some(k) && name.subrange(k + 1, name.len() as int) == "img"@
}

/// The file name without its extension.
pub open spec fn image_stem(name: Seq<char>) -> Seq<char> {
    match last_dot_before(name, name.len() as int) {
        Some(k) => name.subrange(0, k),
        None => name,
    }
}

/// The device a file found in the images directory registers as at
/// start-up: an `.img` file becomes `image-{stem}`, a scan-capable managed
/// image backed by that file; any other file registers nothing.
pub fn managed_image_device(file_name: &str, path: &str) -> (r: Option<RegisteredDevice>)
    ensures
        r is Some <==> is_managed_image(file_name@),
        r matches Some(d) ==> d@ == ("image-"@ + image_stem(file_name@), "image-"@ + image_stem(file_name@),
            "managed-image"@, Some(path@), true, None::<Seq<char>>),
{
    let chars = str_to_chars(file_name);
    let n = chars.len();
    let mut k: usize = n;
    while k > 1 && chars[k - 1] != '.'
        invariant
            k <= n,
            n == chars@.len(),
            chars@ == file_name@,
            last_dot_before(chars@, k as int) == last_dot_before(chars@, n as int),
        decreases k,
    {
        k = k - 1;
    }
    if k <= 1 {
        return None;
    }
    let dot = k - 1;
    assert(last_dot_before(chars@, n as int) == Some(dot as int));
    proof {
        reveal_strlit("img");
    }
    if n - dot != 4 || chars[dot + 1] != 'i' || chars[dot + 2] != 'm' || chars[dot + 3] != 'g' {
        proof {
            let t = chars@.subrange(dot + 1, n as int);
            if t == "img"@ {
                assert(t.len() == 3);
                assert(t[0] == chars@[dot + 1] && t[1] == chars@[dot + 2] && t[2] == chars@[dot + 3]);
            }
        }
        return None;
    }
    assert(chars@.subrange(dot + 1, n as int) =~= "img"@);
    let mut stem: Vec<char> = Vec::new();
    let mut i: usize = 0;
    while i < dot
        invariant
            i <= dot < n,
            n == chars@.len(),
            stem@ == chars@.subrange(0, i as int),
        decreases dot - i,
    {
        stem.push(chars[i]);
        i = i + 1;
        assert(stem@ =~= chars@.subrange(0, i as int));
    }
    let mut id = owned("image-");
    let stem_s = chars_to_string(stem.as_slice());
    id.append(stem_s.as_str());
    let name = id.clone();
    Some(RegisteredDevice {
        id,
        name,
        category: owned("managed-image"),
        backing_path: Some(owned(path)),
        scan_capable: true,
        unavailable_reason: None,
    })
}

/// The device a discovered raw disk registers as: a physical disk under
/// its discovered id, name and path, scan-capable as discovery found it.
pub fn physical_disk_device(d: &RawDeviceInfo) -> (r: RegisteredDevice)
    ensures
        r@ == (d.id@, d.name@, "physical-disk"@, Some(d.path@), d.scan_capable, opt_str_view(d.reason)),
{
    RegisteredDevice {
        id: d.id.clone(),
        name: d.name.clone(),
        category: owned("physical-disk"),
        backing_path: Some(d.path.clone()),
        scan_capable: d.scan_capable,
        unavailable_reason: copy_opt_string(&d.reason),
    }
}

} // verus!
