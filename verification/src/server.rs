//! The records the API reports for recovered items: names, sources,
//! content hashes, structural verification and duplicate marking.

use vstd::prelude::*;
use crate::carve::CarvedFile;
use crate::digest::{hex_lower, sha256, sha256_hex};
use crate::fragment::{spec_state_upper, state_upper};
use crate::provider::{opt_bytes, RecoveredItem};
use crate::scoring::{label, spec_label};
use crate::text::{
    after_last, after_last_chars, chars_to_string, decimal, owned, str_eq, str_to_chars, to_lowercase,
    u64_to_decimal, u64_to_padded, unicode_lowercase, zero_pad,
};
use crate::verify::{all_pass, checks_view, spec_verify_by_ext, verify_bytes_by_ext};
use vstd::string::StringExecFns;

verus! {

/// One recovered item as the API reports it.
pub struct RecoveredFileRecord {
    pub id: String,
    pub name: String,
    pub file_type: String,
    pub size_bytes: usize,
    pub score: u8,
    pub label: String,
    pub complete: bool,
    pub source: String,
    pub sha256: String,
    pub structurally_valid: bool,
    pub verification_state: String,
    pub reconstruction_state: String,
    pub duplicate_of: Option<String>,
    pub source_device_id: String,
    pub data_runs: Vec<(u64, u64)>,
    pub resident_data: Option<Vec<u8>>,
}

/// The outcome of writing one recovered file.
pub struct RecoveredFileOutcome {
    pub candidate_id: String,
    pub written_name: String,
    pub requested_name: String,
    pub bytes_written: usize,
    pub sha256_before_write: String,
    pub sha256_after_write: String,
    pub post_write_verified: bool,
    pub status: String,
    pub error: Option<String>,
}

/// What a recovery run wrote.
pub struct RecoveryManifest {
    pub recovery_id: String,
    pub session_id: String,
    pub destination: String,
    pub started_at: String,
    pub completed_at: String,
    pub files: Vec<RecoveredFileOutcome>,
    pub succeeded: usize,
    pub failed: usize,
}

/// The extension of a name: after its last `.`, lower-cased.
pub open spec fn spec_guess_ext(name: Seq<char>) -> Seq<char> {
    unicode_lowercase(after_last(name, '.'))
}

/// The lower-cased extension of a file name.
pub fn guess_ext(name: &str) -> (r: String)
    ensures
        r@ == spec_guess_ext(name@),
{
    let chars = str_to_chars(name);
    let tail = after_last_chars(chars.as_slice(), '.');
    let t = chars_to_string(tail.as_slice());
    to_lowercase(t.as_str())
}

/// Backslashes and double quotes escaped with a backslash.
pub open spec fn spec_esc(s: Seq<char>) -> Seq<char>
    decreases s.len(),
{
    if s.len() == 0 {
        s
    } else {
        let c = s.last();
        spec_esc(s.drop_last()) + (if c == '\\' {
            seq!['\\', '\\']
        } else if c == '"' {
            seq!['\\', '"']
        } else {
            seq![c]
        })
    }
}

/// Escapes a string for a JSON string literal.
pub fn esc(s: &str) -> (r: String)
    ensures
        r@ == spec_esc(s@),
{
    let chars = str_to_chars(s);
    let mut out: Vec<char> = Vec::new();
    let mut i: usize = 0;
    while i < chars.len()
        invariant
            i <= chars@.len(),
            out@ == spec_esc(chars@.subrange(0, i as int)),
        decreases chars@.len() - i,
    {
        let c = chars[i];
        let ghost before = out@;
        if c == '\\' {
            out.push('\\');
            out.push('\\');
        } else if c == '"' {
            out.push('\\');
            out.push('"');
        } else {
            out.push(c);
        }
        proof {
            let s1 = chars@.subrange(0, i + 1);
            assert(s1.drop_last() =~= chars@.subrange(0, i as int));
            assert(s1.last() == c);
            assert(out@ =~= spec_esc(s1));
        }
        i = i + 1;
    }
    assert(chars@.subrange(0, chars@.len() as int) =~= chars@);
    chars_to_string(out.as_slice())
}

/// The name given to a carved candidate: `recovered_NNNN.ext`.
pub open spec fn carved_name(i: int, ext: Seq<char>) -> Seq<char> {
    "recovered_"@ + zero_pad(decimal(i as nat), 4) + "."@ + ext
}

/// Name, file type, size, source, completeness, reconstruction state,
/// runs and resident bytes of item `i`.
pub open spec fn item_parts(i: int, item: RecoveredItem) -> (
    Seq<char>,
    Seq<char>,
    int,
    Seq<char>,
    bool,
    Seq<char>,
    Seq<(u64, u64)>,
    Option<Seq<u8>>,
) {
    match item {
        RecoveredItem::Carved { file, data } => (
            carved_name(i, file.ext@),
            file.file_type@,
            file.size as int,
            "raw_carving"@,
            file.complete,
            if file.complete { "CONTIGUOUS_VERIFIED"@ } else { "PARTIAL"@ },
            Seq::empty(),
            Some(data@),
        ),
        RecoveredItem::NtfsEntry { name, size, resident_data, data_runs, chain_verified, reconstruction_state, .. } => (
            name@,
            spec_guess_ext(name@),
            (size as usize) as int,
            "ntfs_metadata"@,
            chain_verified,
            spec_state_upper(reconstruction_state),
            data_runs@,
            opt_bytes(resident_data),
        ),
        RecoveredItem::Fat32Entry { name, size, resident_data, data_runs, chain_verified, reconstruction_state } => (
            name@,
            spec_guess_ext(name@),
            size as int,
            "fat32_metadata"@,
            chain_verified,
            spec_state_upper(reconstruction_state),
            data_runs@,
            opt_bytes(resident_data),
        ),
    }
}

/// Hash, structural validity and verification state of an item: resident
/// bytes are hashed and checked by the extension's rule set (no rule set:
/// unsupported format); an item with only runs awaits verification; one
/// with neither, or with empty resident bytes, has no data.
pub open spec fn hash_outcome(name: Seq<char>, resident: Option<Seq<u8>>, runs: Seq<(u64, u64)>) -> (Seq<char>, bool, Seq<char>) {
    match resident {
        Some(b) => if b.len() > 0 {
            let h = hex_lower(sha256(b));
            match spec_verify_by_ext(spec_guess_ext(name), b) {
                Some(c) => (h, all_pass(c), if all_pass(c) { "VERIFIED"@ } else { "RECOVERABLE"@ }),
                None => (h, false, "UNSUPPORTED_FORMAT"@),
            }
        } else {
            (Seq::empty(), false, "UNVERIFIED_NO_DATA"@)
        },
        None => if runs.len() > 0 {
            (Seq::empty(), false, "PENDING_VERIFICATION"@)
        } else {
            (Seq::empty(), false, "UNVERIFIED_NO_DATA"@)
        },
    }
}

/// The id of record `i` of a session.
pub open spec fn record_id(session: Seq<char>, i: int) -> Seq<char> {
    session + "-"@ + decimal(i as nat)
}

/// The first position from `j` on holding hash `h` (the length if none).
pub open spec fn first_from(hs: Seq<Seq<char>>, h: Seq<char>, j: int) -> int
    decreases hs.len() - j,
{
    if j < 0 || j >= hs.len() {
        hs.len() as int
    } else if hs[j] == h {
        j
    } else {
        first_from(hs, h, j + 1)
    }
}

/// A record is a duplicate of the first record with the same non-empty
/// hash, when that is an earlier one.
pub open spec fn spec_duplicate_of(session: Seq<char>, hs: Seq<Seq<char>>, i: int) -> Option<Seq<char>> {
    if hs[i].len() > 0 && first_from(hs, hs[i], 0) < i {
        Some(record_id(session, first_from(hs, hs[i], 0)))
    } else {
        None
    }
}

/// Record `i` of a session built from item `i` and its score.
pub open spec fn record_ok(r: RecoveredFileRecord, session: Seq<char>, i: int, item: RecoveredItem, score: u8) -> bool {
    let p = item_parts(i, item);
    let h = hash_outcome(p.0, p.7, p.6);
    &&& r.id@ == record_id(session, i)
    &&& r.name@ == p.0
    &&& r.file_type@ == p.1
    &&& r.size_bytes == p.2
    &&& r.score == score
    &&& r.label@ == spec_label(score)
    &&& r.complete == p.4
    &&& r.source@ == p.3
    &&& r.sha256@ == h.0
    &&& r.structurally_valid == h.1
    &&& r.verification_state@ == h.2
    &&& r.reconstruction_state@ == p.5
    &&& r.source_device_id@.len() == 0
    &&& r.data_runs@ == p.6
    &&& opt_bytes(r.resident_data) == p.7
}

pub open spec fn opt_text(o: Option<String>) -> Option<Seq<char>> {
    match o {
        Some(s) => Some(s@),
        None => None,
    }
}

/// The records of a session's items, `scores[i]` being item `i`'s score.
pub open spec fn records_ok(r: Seq<RecoveredFileRecord>, session: Seq<char>, items: Seq<RecoveredItem>, scores: Seq<u8>) -> bool {
    let hs = r.map_values(|x: RecoveredFileRecord| x.sha256@);
    &&& r.len() == items.len()
    &&& forall|i: int| 0 <= i < r.len() ==> {
        &&& record_ok(#[trigger] r[i], session, i, items[i], scores[i])
        &&& opt_text(r[i].duplicate_of) == spec_duplicate_of(session, hs, i)
    }
}

fn copy_bytes_opt(o: &Option<Vec<u8>>) -> (r: Option<Vec<u8>>)
    ensures
        opt_bytes(r) == opt_bytes(*o),
{
    match o {
        Some(v) => Some(vstd::slice::slice_to_vec(v.as_slice())),
        None => None,
    }
}

fn record_id_exec(session_id: &str, i: usize) -> (r: String)
    ensures
        r@ == record_id(session_id@, i as int),
{
    let mut s = owned(session_id);
    s.append("-");
    let n = u64_to_decimal(i as u64);
    s.append(n.as_str());
    s
}

fn all_checks_pass(c: &Vec<(String, bool)>) -> (r: bool)
    ensures
        r == all_pass(checks_view(c@)),
{
    let mut i: usize = 0;
    while i < c.len()
        invariant
            i <= c@.len(),
            forall|j: int| 0 <= j < i ==> #[trigger] c@[j].1,
        decreases c@.len() - i,
    {
        if !c[i].1 {
            assert(!checks_view(c@)[i as int].1);
            return false;
        }
        i = i + 1;
    }
    assert forall|j: int| 0 <= j < checks_view(c@).len() implies #[trigger] checks_view(c@)[j].1 by {
        assert(checks_view(c@)[j].1 == c@[j].1);
    }
    true
}

fn hash_and_check(name: &str, resident: &Option<Vec<u8>>, runs: &Vec<(u64, u64)>) -> (r: (String, bool, String))
    ensures
        (r.0@, r.1, r.2@) == hash_outcome(name@, opt_bytes(*resident), runs@),
{
    match resident {
        Some(bytes) => {
            if bytes.len() > 0 {
                let h = sha256_hex(bytes.as_slice());
                let ext = guess_ext(name);
                match verify_bytes_by_ext(ext.as_str(), bytes.as_slice()) {
                    Some(checks) => {
                        let valid = all_checks_pass(&checks);
                        (h, valid, owned(if valid { "VERIFIED" } else { "RECOVERABLE" }))
                    },
                    None => (h, false, owned("UNSUPPORTED_FORMAT")),
                }
            } else {
                (String::new(), false, owned("UNVERIFIED_NO_DATA"))
            }
        },
        None => {
            if runs.len() > 0 {
                (String::new(), false, owned("PENDING_VERIFICATION"))
            } else {
                (String::new(), false, owned("UNVERIFIED_NO_DATA"))
            }
        },
    }
}

fn build_record(session_id: &str, i: usize, item: &RecoveredItem, score: u8) -> (r: RecoveredFileRecord)
    ensures
        record_ok(r, session_id@, i as int, *item, score),
        r.duplicate_of is None,
{
    let (name, file_type, size_bytes, source, complete, recon, runs, resident): (
        String,
        String,
        usize,
        &str,
        bool,
        String,
        Vec<(u64, u64)>,
        Option<Vec<u8>>,
    ) = match item {
        RecoveredItem::Carved { file, data } => {
            let mut n = owned("recovered_");
            let num = u64_to_padded(i as u64, 4);
            n.append(num.as_str());
            n.append(".");
            n.append(file.ext.as_str());
            (
                n,
                file.file_type.clone(),
                file.size,
                "raw_carving",
                file.complete,
                owned(if file.complete { "CONTIGUOUS_VERIFIED" } else { "PARTIAL" }),
                Vec::new(),
                Some(vstd::slice::slice_to_vec(data.as_slice())),
            )
        },
        RecoveredItem::NtfsEntry { name, size, resident_data, data_runs, chain_verified, reconstruction_state, .. } => (
            name.clone(),
            guess_ext(name.as_str()),
            *size as usize,
            "ntfs_metadata",
            *chain_verified,
            state_upper(*reconstruction_state),
            vstd::slice::slice_to_vec(data_runs.as_slice()),
            copy_bytes_opt(resident_data),
        ),
        RecoveredItem::Fat32Entry { name, size, resident_data, data_runs, chain_verified, reconstruction_state } => (
            name.clone(),
            guess_ext(name.as_str()),
            *size as usize,
            "fat32_metadata",
            *chain_verified,
            state_upper(*reconstruction_state),
            vstd::slice::slice_to_vec(data_runs.as_slice()),
            copy_bytes_opt(resident_data),
        ),
    };
    let (sha256, structurally_valid, verification_state) = hash_and_check(name.as_str(), &resident, &runs);
    RecoveredFileRecord {
        id: record_id_exec(session_id, i),
        name,
        file_type,
        size_bytes,
        score,
        label: owned(label(score)),
        complete,
        source: owned(source),
        sha256,
        structurally_valid,
        verification_state,
        reconstruction_state: recon,
        duplicate_of: None,
        source_device_id: String::new(),
        data_runs: runs,
        resident_data: resident,
    }
}

/// How many of `rs` are not duplicates of an earlier record.
pub open spec fn unique_count(rs: Seq<RecoveredFileRecord>) -> int
    decreases rs.len(),
{
    if rs.len() == 0 {
        0
    } else {
        unique_count(rs.drop_last()) + if rs.last().duplicate_of is None { 1int } else { 0int }
    }
}

/// The number of records that are not duplicates (a session's files
/// recovered).
pub fn unique_record_count(records: &[RecoveredFileRecord]) -> (r: usize)
    ensures
        r == unique_count(records@),
{
    let mut n: usize = 0;
    let mut i: usize = 0;
    while i < records.len()
        invariant
            i <= records@.len(),
            n == unique_count(records@.subrange(0, i as int)),
            n <= i,
        decreases records@.len() - i,
    {
        assert(records@.subrange(0, i + 1).drop_last() =~= records@.subrange(0, i as int));
        if records[i].duplicate_of.is_none() {
            n = n + 1;
        }
        i = i + 1;
    }
    assert(records@.subrange(0, records@.len() as int) =~= records@);
    n
}

/// Builds the records of a session's items (see `records_ok`); `scores`
/// holds each item's confidence score.
pub fn build_records(session_id: &str, items: &[RecoveredItem], scores: &[u8]) -> (r: Vec<RecoveredFileRecord>)
    requires
        scores@.len() == items@.len(),
    ensures
        records_ok(r@, session_id@, items@, scores@),
{
    let mut records: Vec<RecoveredFileRecord> = Vec::new();
    let mut i: usize = 0;
    while i < items.len()
        invariant
            i <= items@.len(),
            scores@.len() == items@.len(),
            records@.len() == i,
            forall|j: int| 0 <= j < i ==> record_ok(#[trigger] records@[j], session_id@, j, items@[j], scores@[j])
                && records@[j].duplicate_of is None,
        decreases items@.len() - i,
    {
        let rec = build_record(session_id, i, &items[i], scores[i]);
        records.push(rec);
        i = i + 1;
    }
    let n = items.len();
    let ghost hs = records@.map_values(|x: RecoveredFileRecord| x.sha256@);
    let mut out: Vec<RecoveredFileRecord> = Vec::new();
    let mut rest = records;
    let ghost all = rest@;
    let mut k: usize = 0;
    while rest.len() > 0
        invariant
            hs == all.map_values(|x: RecoveredFileRecord| x.sha256@),
            all.len() == items@.len(),
            n == items@.len(),
            scores@.len() == items@.len(),
            k + rest@.len() == all.len(),
            rest@ == all.subrange(k as int, all.len() as int),
            out@.len() == k,
            forall|j: int| 0 <= j < all.len() ==> record_ok(#[trigger] all[j], session_id@, j, items@[j], scores@[j])
                && all[j].duplicate_of is None,
            forall|j: int| 0 <= j < k ==> {
                &&& record_ok(#[trigger] out@[j], session_id@, j, items@[j], scores@[j])
                &&& opt_text(out@[j].duplicate_of) == spec_duplicate_of(session_id@, hs, j)
                &&& out@[j].sha256@ == hs[j]
            },
        decreases rest@.len(),
    {
        let mut rec = rest.remove(0);
        proof {
            assert(rec == all[k as int]);
            assert(rest@ =~= all.subrange(k + 1, all.len() as int));
            assert(hs[k as int] == rec.sha256@);
        }
        if rec.sha256.as_str().unicode_len() > 0 {
            let mut j: usize = 0;
            let mut found = false;
            while j < k
                invariant_except_break
                    !found,
                invariant
                    j <= k,
                    k < all.len(),
                    out@.len() == k,
                    hs == all.map_values(|x: RecoveredFileRecord| x.sha256@),
                    forall|t: int| 0 <= t < k ==> (#[trigger] out@[t]).sha256@ == hs[t],
                    forall|t: int| 0 <= t < j ==> hs[t] != hs[k as int],
                    rec.sha256@ == hs[k as int],
                ensures
                    found ==> j < k && hs[j as int] == hs[k as int],
                    !found ==> j == k,
                decreases k - j,
            {
                if str_eq(out[j].sha256.as_str(), rec.sha256.as_str()) {
                    found = true;
                    break;
                }
                j = j + 1;
            }
            proof {
                lemma_first_from(hs, hs[k as int], 0, j as int);
            }
            if found {
                rec.duplicate_of = Some(out[j].id.clone());
                proof {
                    assert(out@[j as int].id@ == record_id(session_id@, j as int));
                }
            }
        }
        let ghost dup = rec.duplicate_of;
        proof {
            assert(opt_text(dup) == spec_duplicate_of(session_id@, hs, k as int));
        }
        out.push(rec);
        k = k + 1;
    }
    proof {
        assert(hs =~= out@.map_values(|x: RecoveredFileRecord| x.sha256@));
    }
    out
}

/// With no `h` at positions `j..f` and `h` at `f` (or `f` past the end),
/// the first `h` from `j` is at `f`.
proof fn lemma_first_from(hs: Seq<Seq<char>>, h: Seq<char>, j: int, f: int)
    requires
        0 <= j <= f <= hs.len(),
        forall|t: int| j <= t < f ==> hs[t] != h,
        f < hs.len() ==> hs[f] == h,
    ensures
        first_from(hs, h, j) == f || (f == hs.len() && first_from(hs, h, j) == hs.len()),
    decreases f - j,
{
    if j < f {
        lemma_first_from(hs, h, j + 1, f);
    }
}


/// Milliseconds since the Unix epoch, from `SystemTime::now()` (zero for a
/// clock set before the epoch). Nothing is claimed of the value: it is the
/// time of the call.
#[verifier::external_body]
fn unix_millis() -> u64 {
    match std::time::SystemTime::now().duration_since(std::time::UNIX_EPOCH) {
        Ok(d) => d.as_millis() as u64,
        Err(_) => 0,
    }
}

/// The current time as decimal milliseconds since the Unix epoch.
pub fn now_iso_public() -> (r: String)
    ensures
        exists|t: u64| r@ == #[trigger] decimal(t as nat),
{
    let t = unix_millis();
    let r = u64_to_decimal(t);
    assert(r@ == decimal(t as nat));
    r
}

} // verus!
