//! The local API's decisions: which operation a request names, the
//! validation of a scan request, and the selection of candidates for a
//! recovery.

use vstd::prelude::*;
use crate::server::{esc, spec_esc, RecoveredFileOutcome, RecoveredFileRecord};
use crate::digest::{hex_lower, sha256, sha256_hex};
use crate::text::{
    chars_to_string, lines_chars, owned, parse_u64, parse_u64_chars, split_lines, str_eq, str_to_chars, strip_suffix_all,
    strip_suffix_all_chars, trim, trim_chars, words, words_chars,
};
use vstd::string::StringExecFns;

verus! {

/// The operations of the API.
#[derive(Clone, Copy, PartialEq, Eq, Structural, Debug)]
pub enum RouteKind {
    Unauthorized,
    ListDevices,
    Preflight,
    StartScan,
    GetScanJob,
    GetJob,
    PauseScan,
    ResumeScan,
    CancelScan,
    ImageDevice,
    ScanResults,
    CandidatePreview,
    StartRecovery,
    RecoveryProgress,
    PauseRecovery,
    ResumeRecovery,
    CancelRecovery,
    GetRecovery,
    ListSessions,
    GetSession,
    NotFound,
}

/// An operation and the id it names (empty when it names none).
pub struct Route {
    pub kind: RouteKind,
    pub id: String,
}

/// `s` without every repetition of `p` at its start (`trim_start_matches`).
pub open spec fn strip_prefix_all(s: Seq<char>, p: Seq<char>) -> Seq<char>
    decreases s.len(),
{
    if p.len() > 0 && s.len() >= p.len() && s.subrange(0, p.len() as int) == p {
        strip_prefix_all(s.subrange(p.len() as int, s.len() as int), p)
    } else {
        s
    }
}

pub open spec fn starts(s: Seq<char>, p: Seq<char>) -> bool {
    p.len() <= s.len() && s.subrange(0, p.len() as int) == p
}

pub open spec fn ends(s: Seq<char>, p: Seq<char>) -> bool {
    p.len() <= s.len() && s.subrange(s.len() - p.len(), s.len() as int) == p
}

/// The id between a path prefix and suffix (each trimmed repeatedly).
pub open spec fn between(path: Seq<char>, prefix: Seq<char>, suffix: Seq<char>) -> Seq<char> {
    strip_suffix_all(strip_prefix_all(path, prefix), suffix)
}

/// The operation a request names, tried in the API's order; a POST or
/// DELETE without a valid token is refused first.
pub open spec fn spec_route(m: Seq<char>, p: Seq<char>, authorized: bool) -> (RouteKind, Seq<char>) {
    let none = Seq::<char>::empty();
    if (m == "POST"@ || m == "DELETE"@) && !authorized {
        (RouteKind::Unauthorized, none)
    } else if m == "GET"@ && p == "/devices"@ {
        (RouteKind::ListDevices, none)
    } else if m == "OPTIONS"@ {
        (RouteKind::Preflight, none)
    } else if m == "POST"@ && (p == "/scan"@ || p == "/scans"@) {
        (RouteKind::StartScan, none)
    } else if m == "GET"@ && starts(p, "/scans/"@) {
        (RouteKind::GetScanJob, strip_prefix_all(p, "/scans/"@))
    } else if m == "GET"@ && starts(p, "/jobs/"@) {
        (RouteKind::GetJob, strip_prefix_all(p, "/jobs/"@))
    } else if m == "POST"@ && starts(p, "/scans/"@) && ends(p, "/pause"@) {
        (RouteKind::PauseScan, between(p, "/scans/"@, "/pause"@))
    } else if m == "POST"@ && starts(p, "/scans/"@) && ends(p, "/resume"@) {
        (RouteKind::ResumeScan, between(p, "/scans/"@, "/resume"@))
    } else if m == "POST"@ && starts(p, "/scans/"@) && ends(p, "/cancel"@) {
        (RouteKind::CancelScan, between(p, "/scans/"@, "/cancel"@))
    } else if m == "POST"@ && p == "/image"@ {
        (RouteKind::ImageDevice, none)
    } else if m == "GET"@ && starts(p, "/scan/"@) && ends(p, "/results"@) {
        (RouteKind::ScanResults, between(p, "/scan/"@, "/results"@))
    } else if m == "GET"@ && starts(p, "/candidates/"@) && ends(p, "/preview"@) {
        (RouteKind::CandidatePreview, between(p, "/candidates/"@, "/preview"@))
    } else if m == "POST"@ && p == "/recoveries"@ {
        (RouteKind::StartRecovery, none)
    } else if m == "GET"@ && starts(p, "/recoveries/"@) && ends(p, "/progress"@) {
        (RouteKind::RecoveryProgress, between(p, "/recoveries/"@, "/progress"@))
    } else if m == "POST"@ && starts(p, "/recoveries/"@) && ends(p, "/pause"@) {
        (RouteKind::PauseRecovery, between(p, "/recoveries/"@, "/pause"@))
    } else if m == "POST"@ && starts(p, "/recoveries/"@) && ends(p, "/resume"@) {
        (RouteKind::ResumeRecovery, between(p, "/recoveries/"@, "/resume"@))
    } else if m == "POST"@ && starts(p, "/recoveries/"@) && ends(p, "/cancel"@) {
        (RouteKind::CancelRecovery, between(p, "/recoveries/"@, "/cancel"@))
    } else if m == "GET"@ && starts(p, "/recoveries/"@) {
        (RouteKind::GetRecovery, strip_prefix_all(p, "/recoveries/"@))
    } else if m == "GET"@ && p == "/sessions"@ {
        (RouteKind::ListSessions, none)
    } else if m == "GET"@ && starts(p, "/sessions/"@) {
        (RouteKind::GetSession, strip_prefix_all(p, "/sessions/"@))
    } else {
        (RouteKind::NotFound, none)
    }
}

/// A POST or DELETE without a valid token is refused, whatever its path.
pub proof fn law_unauthorized_writes_are_refused(m: Seq<char>, p: Seq<char>)
    requires
        m == "POST"@ || m == "DELETE"@,
    ensures
        spec_route(m, p, false) == (RouteKind::Unauthorized, Seq::<char>::empty()),
{
}

/// Any other method is routed the same with or without a valid token.
pub proof fn law_reads_need_no_token(m: Seq<char>, p: Seq<char>)
    requires
        m != "POST"@,
        m != "DELETE"@,
    ensures
        spec_route(m, p, true) == spec_route(m, p, false),
{
}

fn starts_exec(s: &Vec<char>, lit: &str) -> (r: bool)
    ensures
        r == starts(s@, lit@),
{
    let p = str_to_chars(lit);
    if p.len() > s.len() {
        return false;
    }
    let mut i: usize = 0;
    while i < p.len()
        invariant
            p@ == lit@,
            p@.len() <= s@.len(),
            i <= p@.len(),
            forall|j: int| 0 <= j < i ==> s@[j] == p@[j],
        decreases p@.len() - i,
    {
        if s[i] != p[i] {
            assert(s@.subrange(0, p@.len() as int)[i as int] != p@[i as int]);
            return false;
        }
        i = i + 1;
    }
    assert(s@.subrange(0, p@.len() as int) =~= p@);
    true
}

fn ends_exec(s: &Vec<char>, lit: &str) -> (r: bool)
    ensures
        r == ends(s@, lit@),
{
    let p = str_to_chars(lit);
    if p.len() > s.len() {
        return false;
    }
    let off = s.len() - p.len();
    let mut i: usize = 0;
    while i < p.len()
        invariant
            p@ == lit@,
            off + p@.len() == s@.len(),
            s@.len() <= usize::MAX,
            i <= p@.len(),
            forall|j: int| 0 <= j < i ==> s@[off + j] == p@[j],
        decreases p@.len() - i,
    {
        if s[off + i] != p[i] {
            assert(s@.subrange(off as int, s@.len() as int)[i as int] != p@[i as int]);
            return false;
        }
        i = i + 1;
    }
    assert(s@.subrange(off as int, s@.len() as int) =~= p@);
    true
}

fn strip_prefix_all_exec(s: &Vec<char>, lit: &str) -> (r: Vec<char>)
    ensures
        r@ == strip_prefix_all(s@, lit@),
{
    let p = str_to_chars(lit);
    let mut start: usize = 0;
    assert(s@.subrange(0, s@.len() as int) =~= s@);
    loop
        invariant
            p@ == lit@,
            start <= s@.len(),
            strip_prefix_all(s@, p@) == strip_prefix_all(s@.subrange(start as int, s@.len() as int), p@),
        ensures
            start <= s@.len(),
            strip_prefix_all(s@, p@) == s@.subrange(start as int, s@.len() as int),
        decreases s@.len() - start,
    {
        if p.len() == 0 || s.len() - start < p.len() {
            break;
        }
        let mut j: usize = 0;
        let mut same = true;
        while j < p.len()
            invariant
                start + p@.len() <= s@.len(),
                s@.len() <= usize::MAX,
                j <= p@.len(),
                same == (forall|x: int| 0 <= x < j ==> s@[start + x] == p@[x]),
            decreases p@.len() - j,
        {
            if s[start + j] != p[j] {
                same = false;
            }
            j = j + 1;
        }
        let ghost cur = s@.subrange(start as int, s@.len() as int);
        proof {
            assert(same == (cur.subrange(0, p@.len() as int) == p@)) by {
                if same {
                    assert(cur.subrange(0, p@.len() as int) =~= p@);
                } else {
                    let x = choose|x: int| 0 <= x < p@.len() && s@[start + x] != p@[x];
                    assert(cur.subrange(0, p@.len() as int)[x] != p@[x]);
                }
            }
        }
        if !same {
            break;
        }
        assert(cur.subrange(p@.len() as int, cur.len() as int) =~= s@.subrange(start + p@.len(), s@.len() as int));
        start = start + p.len();
    }
    let mut v: Vec<char> = Vec::new();
    let mut i: usize = start;
    while i < s.len()
        invariant
            start <= i <= s@.len(),
            v@ == s@.subrange(start as int, i as int),
        decreases s@.len() - i,
    {
        v.push(s[i]);
        i = i + 1;
    }
    v
}

fn between_exec(path: &Vec<char>, prefix: &str, suffix: &str) -> (r: String)
    ensures
        r@ == between(path@, prefix@, suffix@),
{
    let a = strip_prefix_all_exec(path, prefix);
    let s = str_to_chars(suffix);
    let b = strip_suffix_all_chars(a.as_slice(), s.as_slice());
    chars_to_string(b.as_slice())
}

fn id_after(path: &Vec<char>, prefix: &str) -> (r: String)
    ensures
        r@ == strip_prefix_all(path@, prefix@),
{
    let a = strip_prefix_all_exec(path, prefix);
    chars_to_string(a.as_slice())
}

fn route_of(kind: RouteKind, id: String) -> (r: Route)
    ensures
        r.kind == kind,
        r.id == id,
{
    Route { kind, id }
}

/// The operation a request names (see `spec_route`); `authorized` is
/// whether its bearer token is valid.
pub fn route_for(method: &str, path: &str, authorized: bool) -> (r: Route)
    ensures
        (r.kind, r.id@) == spec_route(method@, path@, authorized),
{
    let p = str_to_chars(path);
    let get = str_eq(method, "GET");
    let post = str_eq(method, "POST");
    if (post || str_eq(method, "DELETE")) && !authorized {
        return route_of(RouteKind::Unauthorized, String::new());
    }
    if get && str_eq(path, "/devices") {
        return route_of(RouteKind::ListDevices, String::new());
    }
    if str_eq(method, "OPTIONS") {
        return route_of(RouteKind::Preflight, String::new());
    }
    if post && (str_eq(path, "/scan") || str_eq(path, "/scans")) {
        return route_of(RouteKind::StartScan, String::new());
    }
    if get && starts_exec(&p, "/scans/") {
        return route_of(RouteKind::GetScanJob, id_after(&p, "/scans/"));
    }
    if get && starts_exec(&p, "/jobs/") {
        return route_of(RouteKind::GetJob, id_after(&p, "/jobs/"));
    }
    if post && starts_exec(&p, "/scans/") && ends_exec(&p, "/pause") {
        return route_of(RouteKind::PauseScan, between_exec(&p, "/scans/", "/pause"));
    }
    if post && starts_exec(&p, "/scans/") && ends_exec(&p, "/resume") {
        return route_of(RouteKind::ResumeScan, between_exec(&p, "/scans/", "/resume"));
    }
    if post && starts_exec(&p, "/scans/") && ends_exec(&p, "/cancel") {
        return route_of(RouteKind::CancelScan, between_exec(&p, "/scans/", "/cancel"));
    }
    if post && str_eq(path, "/image") {
        return route_of(RouteKind::ImageDevice, String::new());
    }
    if get && starts_exec(&p, "/scan/") && ends_exec(&p, "/results") {
        return route_of(RouteKind::ScanResults, between_exec(&p, "/scan/", "/results"));
    }
    if get && starts_exec(&p, "/candidates/") && ends_exec(&p, "/preview") {
        return route_of(RouteKind::CandidatePreview, between_exec(&p, "/candidates/", "/preview"));
    }
    if post && str_eq(path, "/recoveries") {
        return route_of(RouteKind::StartRecovery, String::new());
    }
    if get && starts_exec(&p, "/recoveries/") && ends_exec(&p, "/progress") {
        return route_of(RouteKind::RecoveryProgress, between_exec(&p, "/recoveries/", "/progress"));
    }
    if post && starts_exec(&p, "/recoveries/") && ends_exec(&p, "/pause") {
        return route_of(RouteKind::PauseRecovery, between_exec(&p, "/recoveries/", "/pause"));
    }
    if post && starts_exec(&p, "/recoveries/") && ends_exec(&p, "/resume") {
        return route_of(RouteKind::ResumeRecovery, between_exec(&p, "/recoveries/", "/resume"));
    }
    if post && starts_exec(&p, "/recoveries/") && ends_exec(&p, "/cancel") {
        return route_of(RouteKind::CancelRecovery, between_exec(&p, "/recoveries/", "/cancel"));
    }
    if get && starts_exec(&p, "/recoveries/") {
        return route_of(RouteKind::GetRecovery, id_after(&p, "/recoveries/"));
    }
    if get && str_eq(path, "/sessions") {
        return route_of(RouteKind::ListSessions, String::new());
    }
    if get && starts_exec(&p, "/sessions/") {
        return route_of(RouteKind::GetSession, id_after(&p, "/sessions/"));
    }
    route_of(RouteKind::NotFound, String::new())
}

/// Why a scan request is refused: no device id, or a mode other than
/// `quick` and `deep`.
pub open spec fn spec_scan_request_error(device_id: Seq<char>, mode: Seq<char>) -> Option<Seq<char>> {
    if device_id.len() == 0 {
        Some("device_id is required"@)
    } else if mode != "quick"@ && mode != "deep"@ {
        Some("mode must be quick or deep"@)
    } else {
        None
    }
}

/// Why a scan request is refused (see `spec_scan_request_error`), if it is.
pub fn scan_request_error(device_id: &str, mode: &str) -> (r: Option<String>)
    ensures
        match r {
            Some(m) => spec_scan_request_error(device_id@, mode@) == Some(m@),
            None => spec_scan_request_error(device_id@, mode@) is None,
        },
{
    if device_id.unicode_len() == 0 {
        return Some(owned("device_id is required"));
    }
    if !str_eq(mode, "quick") && !str_eq(mode, "deep") {
        return Some(owned("mode must be quick or deep"));
    }
    None
}

/// The bytes a set of records needs at the destination: the sum of their
/// sizes, saturating at `u64::MAX`.
pub open spec fn required_total(sizes: Seq<usize>) -> int
    decreases sizes.len(),
{
    if sizes.len() == 0 {
        0
    } else {
        let t = required_total(sizes.drop_last()) + sizes.last();
        if t > u64::MAX { u64::MAX as int } else { t }
    }
}

/// The bytes a recovery of `records` needs: their sizes summed, saturating.
pub fn required_bytes(records: &[RecoveredFileRecord]) -> (r: u64)
    ensures
        r == required_total(records@.map_values(|x: RecoveredFileRecord| x.size_bytes)),
{
    let ghost sizes = records@.map_values(|x: RecoveredFileRecord| x.size_bytes);
    let mut total: u64 = 0;
    let mut i: usize = 0;
    while i < records.len()
        invariant
            i <= records@.len(),
            sizes == records@.map_values(|x: RecoveredFileRecord| x.size_bytes),
            total == required_total(sizes.subrange(0, i as int)),
        decreases records@.len() - i,
    {
        assert(sizes.subrange(0, i + 1).drop_last() =~= sizes.subrange(0, i as int));
        total = total.saturating_add(records[i].size_bytes as u64);
        i = i + 1;
    }
    assert(sizes.subrange(0, i as int) =~= sizes);
    total
}

/// The positions of the records a recovery takes: all of them when no
/// candidate is named, otherwise those whose id is named, in order.
pub open spec fn selected_indices(ids: Seq<Seq<char>>, wanted: Seq<Seq<char>>) -> Seq<int>
    decreases ids.len(),
{
    if ids.len() == 0 {
        Seq::empty()
    } else {
        let r = selected_indices(ids.drop_last(), wanted);
        if wanted.len() == 0 || wanted.contains(ids.last()) {
            r.push(ids.len() - 1)
        } else {
            r
        }
    }
}

fn is_wanted(id: &String, wanted: &[String]) -> (r: bool)
    ensures
        r == wanted@.map_values(|w: String| w@).contains(id@),
{
    let ghost ws = wanted@.map_values(|w: String| w@);
    let mut k: usize = 0;
    while k < wanted.len()
        invariant
            k <= wanted@.len(),
            ws == wanted@.map_values(|w: String| w@),
            forall|j: int| 0 <= j < k ==> ws[j] != id@,
        decreases wanted@.len() - k,
    {
        if str_eq(wanted[k].as_str(), id.as_str()) {
            assert(ws[k as int] == id@);
            return true;
        }
        k = k + 1;
    }
    false
}

/// The positions, in the records, of the candidates a recovery takes (see
/// `selected_indices`).
pub fn select_candidates(records: &[RecoveredFileRecord], wanted: &[String]) -> (r: Vec<usize>)
    ensures
        r@.map_values(|i: usize| i as int) == selected_indices(
            records@.map_values(|x: RecoveredFileRecord| x.id@),
            wanted@.map_values(|w: String| w@),
        ),
{
    let ghost ids = records@.map_values(|x: RecoveredFileRecord| x.id@);
    let ghost ws = wanted@.map_values(|w: String| w@);
    let mut out: Vec<usize> = Vec::new();
    let mut i: usize = 0;
    while i < records.len()
        invariant
            i <= records@.len(),
            ids == records@.map_values(|x: RecoveredFileRecord| x.id@),
            ws == wanted@.map_values(|w: String| w@),
            out@.map_values(|i: usize| i as int) == selected_indices(ids.subrange(0, i as int), ws),
        decreases records@.len() - i,
    {
        let ghost before = out@.map_values(|i: usize| i as int);
        assert(ids.subrange(0, i + 1).drop_last() =~= ids.subrange(0, i as int));
        assert(ids.subrange(0, i + 1).last() == records@[i as int].id@);
        if wanted.len() == 0 || is_wanted(&records[i].id, wanted) {
            out.push(i);
            assert(out@.map_values(|i: usize| i as int) =~= before.push(i as int));
        }
        i = i + 1;
    }
    assert(ids.subrange(0, i as int) =~= ids);
    out
}

/// A written file counts as recovered when writing succeeded and the hash
/// of what was written equals the candidate's hash.
pub fn write_verified(write_failed: bool, sha256_after: &str, sha256_before: &str) -> (r: bool)
    ensures
        r == (!write_failed && sha256_after@ == sha256_before@),
{
    !write_failed && str_eq(sha256_after, sha256_before)
}

/// A recovery request names no destination: its destination is empty once
/// surrounding whitespace is trimmed (answered `400 Bad Request`).
pub fn destination_missing(destination: &str) -> (r: bool)
    ensures
        r == (trim(destination@).len() == 0),
{
    let c = str_to_chars(destination);
    trim_chars(c.as_slice()).len() == 0
}

/// The id of a scan job started now: `scan-{device}-{now}`.
pub fn scan_job_id(device_id: &str, now: &str) -> (r: String)
    ensures
        r@ == "scan-"@ + device_id@ + "-"@ + now@,
{
    let mut s = owned("scan-");
    s.append(device_id);
    s.append("-");
    s.append(now);
    s
}

/// What the API reads from a request's head: the method and path of its
/// first line, its declared body length and its `Authorization` value.
pub struct RequestHead {
    pub method: String,
    pub path: String,
    pub content_length: usize,
    pub authorization: String,
}

/// The position of the first `:` in a line.
pub open spec fn first_colon(l: Seq<char>) -> Option<int>
    decreases l.len(),
{
    if l.len() == 0 {
        None
    } else {
        match first_colon(l.drop_last()) {
            Some(i) => Some(i),
            None => if l.last() == ':' { Some(l.len() - 1) } else { None },
        }
    }
}

/// The code of a character, ASCII upper case mapped to lower case.
pub open spec fn lower_code(c: char) -> u32 {
    if 65 <= (c as u32) && (c as u32) <= 90 { ((c as u32) + 32) as u32 } else { c as u32 }
}

/// A header name equal to `name` (given in lower case) up to ASCII case.
pub open spec fn names_header(k: Seq<char>, name: Seq<char>) -> bool {
    k.len() == name.len() && forall|i: int| 0 <= i < k.len() ==> lower_code(#[trigger] k[i]) == name[i] as u32
}

/// A declared body length: the number, or `usize::MAX` when it does not
/// parse (so that it is refused as too large).
pub open spec fn declared_length(v: Seq<char>) -> usize {
    match parse_u64(v) {
        Some(n) => if n <= usize::MAX { n as usize } else { usize::MAX },
        None => usize::MAX,
    }
}

/// The body length and authorization the header lines give, the last line
/// naming each winning: (length, authorization).
pub open spec fn header_values(lines: Seq<Seq<char>>) -> (usize, Seq<char>)
    decreases lines.len(),
{
    if lines.len() == 0 {
        (0, Seq::empty())
    } else {
        let (len, auth) = header_values(lines.drop_last());
        let l = lines.last();
        match first_colon(l) {
            None => (len, auth),
            Some(p) => {
                let k = l.subrange(0, p);
                let v = trim(l.subrange(p + 1, l.len() as int));
                if names_header(k, "content-length"@) {
                    (declared_length(v), auth)
                } else if names_header(k, "authorization"@) {
                    (len, v)
                } else {
                    (len, auth)
                }
            }
        }
    }
}

/// The head of a request: method and path are the first two words of the
/// first line (empty when missing); the other lines are headers.
pub open spec fn spec_request_head(head: Seq<char>) -> (Seq<char>, Seq<char>, usize, Seq<char>) {
    let ls = split_lines(head);
    let w = words(ls[0]);
    let (len, auth) = header_values(ls.drop_first());
    (
        if w.len() > 0 { w[0] } else { Seq::empty() },
        if w.len() > 1 { w[1] } else { Seq::empty() },
        len,
        auth,
    )
}

proof fn lemma_split_lines_nonempty(s: Seq<char>)
    ensures
        split_lines(s).len() >= 1,
    decreases s.len(),
{
    if s.len() > 0 {
        lemma_split_lines_nonempty(s.drop_last());
    }
}

fn first_colon_exec(l: &Vec<char>) -> (r: Option<usize>)
    ensures
        match r {
            Some(p) => first_colon(l@) == Some(p as int) && p < l@.len(),
            None => first_colon(l@) is None,
        },
{
    let mut i: usize = 0;
    while i < l.len()
        invariant
            i <= l@.len(),
            first_colon(l@.subrange(0, i as int)) is None,
        decreases l@.len() - i,
    {
        assert(l@.subrange(0, i + 1).drop_last() =~= l@.subrange(0, i as int));
        if l[i] == ':' {
            proof {
                lemma_first_colon_prefix(l@, i as int);
            }
            return Some(i);
        }
        i = i + 1;
    }
    assert(l@.subrange(0, i as int) =~= l@);
    None
}

/// The first colon of a line is that of any prefix that holds one.
proof fn lemma_first_colon_prefix(l: Seq<char>, i: int)
    requires
        0 <= i < l.len(),
        l[i] == ':',
        first_colon(l.subrange(0, i)) is None,
    ensures
        first_colon(l) == Some(i),
    decreases l.len(),
{
    if l.len() - 1 > i {
        assert(l.drop_last().subrange(0, i) =~= l.subrange(0, i));
        assert(l.drop_last()[i] == l[i]);
        lemma_first_colon_prefix(l.drop_last(), i);
    } else {
        assert(l.drop_last() =~= l.subrange(0, i));
    }
}

fn sub_chars(l: &Vec<char>, a: usize, b: usize) -> (r: Vec<char>)
    requires
        a <= b <= l@.len(),
    ensures
        r@ == l@.subrange(a as int, b as int),
{
    let mut r: Vec<char> = Vec::new();
    let mut j: usize = a;
    while j < b
        invariant
            a <= j <= b <= l@.len(),
            r@ == l@.subrange(a as int, j as int),
        decreases b - j,
    {
        r.push(l[j]);
        j = j + 1;
    }
    r
}

fn names_header_exec(k: &[char], name: &str) -> (r: bool)
    ensures
        r == names_header(k@, name@),
{
    let n = str_to_chars(name);
    if k.len() != n.len() {
        return false;
    }
    let mut i: usize = 0;
    while i < k.len()
        invariant
            k@.len() == n@.len(),
            n@ == name@,
            i <= k@.len(),
            forall|j: int| 0 <= j < i ==> lower_code(#[trigger] k@[j]) == n@[j] as u32,
        decreases k@.len() - i,
    {
        let c = k[i] as u32;
        let lc = if 65 <= c && c <= 90 { c + 32 } else { c };
        if lc != n[i] as u32 {
            return false;
        }
        i = i + 1;
    }
    true
}

/// Reads the head of a request (see `spec_request_head`).
pub fn parse_request_head(head: &str) -> (r: RequestHead)
    ensures
        (r.method@, r.path@, r.content_length, r.authorization@) == spec_request_head(head@),
{
    let chars = str_to_chars(head);
    let lines = lines_chars(chars.as_slice());
    let ghost ls = split_lines(head@);
    proof {
        lemma_split_lines_nonempty(head@);
        assert(lines@.map_values(|l: Vec<char>| l@)[0] == lines@[0]@);
    }
    let w = words_chars(lines[0].as_slice());
    proof {
        assert(w@.map_values(|x: Vec<char>| x@).len() == w@.len());
    }
    let method = if w.len() > 0 {
        proof { assert(w@.map_values(|x: Vec<char>| x@)[0] == w@[0]@); }
        chars_to_string(w[0].as_slice())
    } else {
        String::new()
    };
    let path = if w.len() > 1 {
        proof { assert(w@.map_values(|x: Vec<char>| x@)[1] == w@[1]@); }
        chars_to_string(w[1].as_slice())
    } else {
        String::new()
    };
    let mut len: usize = 0;
    let mut auth: Vec<char> = Vec::new();
    let mut k: usize = 1;
    while k < lines.len()
        invariant
            1 <= k <= lines@.len(),
            ls == lines@.map_values(|l: Vec<char>| l@),
            (len, auth@) == header_values(ls.subrange(1, k as int)),
        decreases lines@.len() - k,
    {
        let ghost sub = ls.subrange(1, k + 1);
        proof {
            assert(sub.drop_last() =~= ls.subrange(1, k as int));
            assert(sub.last() == lines@[k as int]@);
        }
        let l = &lines[k];
        match first_colon_exec(l) {
            None => {},
            Some(p) => {
                let key = sub_chars(l, 0, p);
                let n = l.len();
                assert(p < n);
                let rest = sub_chars(l, p + 1, n);
                let v = trim_chars(rest.as_slice());
                if names_header_exec(key.as_slice(), "content-length") {
                    len = match parse_u64_chars(v.as_slice()) {
                        Some(n) => if n <= usize::MAX as u64 { n as usize } else { usize::MAX },
                        None => usize::MAX,
                    };
                } else if names_header_exec(key.as_slice(), "authorization") {
                    auth = v;
                }
            },
        }
        k = k + 1;
    }
    assert(ls.subrange(1, ls.len() as int) =~= ls.drop_first());
    RequestHead { method, path, content_length: len, authorization: chars_to_string(auth.as_slice()) }
}

/// The most header bytes a request may send before its blank line.
pub const MAX_HEAD_BYTES: usize = 262144;

/// The largest request body accepted (2 MiB).
pub const MAX_BODY_BYTES: usize = 2097152;

/// The key and new status a pause, resume or cancel request reports.
pub open spec fn control_parts(kind: RouteKind) -> Option<(Seq<char>, Seq<char>)> {
    match kind {
        RouteKind::PauseScan => Some(("job_id"@, "PAUSED"@)),
        RouteKind::ResumeScan => Some(("job_id"@, "RUNNING"@)),
        RouteKind::CancelScan => Some(("job_id"@, "CANCELLING"@)),
        RouteKind::PauseRecovery => Some(("recovery_id"@, "PAUSED"@)),
        RouteKind::ResumeRecovery => Some(("recovery_id"@, "RUNNING"@)),
        RouteKind::CancelRecovery => Some(("recovery_id"@, "CANCELLING"@)),
        _ => None,
    }
}

/// The JSON body answering a pause, resume or cancel request for job
/// `id` (answered `202 Accepted`): the job's id and its requested status;
/// nothing for any other operation.
pub open spec fn spec_control_body(kind: RouteKind, id: Seq<char>) -> Option<Seq<char>> {
    match control_parts(kind) {
        Some((key, status)) => Some("{\""@ + key + "\":\""@ + spec_esc(id) + "\",\"status\":\""@ + status + "\"}"@),
        None => None,
    }
}

/// The status line and body of the answer to a request that needs
/// authorization and did not carry a valid token.
pub fn unauthorized_reply() -> (r: (&'static str, String))
    ensures
        r.0@ == "401 Unauthorized"@,
        r.1@ == "{\"error\":\"invalid or missing auth token\"}"@,
{
    ("401 Unauthorized", owned("{\"error\":\"invalid or missing auth token\"}"))
}

/// The answer to a pause, resume or cancel request (see `spec_control_body`).
pub fn control_body(kind: RouteKind, id: &str) -> (r: Option<String>)
    ensures
        match r {
            Some(b) => spec_control_body(kind, id@) == Some(b@),
            None => spec_control_body(kind, id@) is None,
        },
{
    let (key, status) = match kind {
        RouteKind::PauseScan => ("job_id", "PAUSED"),
        RouteKind::ResumeScan => ("job_id", "RUNNING"),
        RouteKind::CancelScan => ("job_id", "CANCELLING"),
        RouteKind::PauseRecovery => ("recovery_id", "PAUSED"),
        RouteKind::ResumeRecovery => ("recovery_id", "RUNNING"),
        RouteKind::CancelRecovery => ("recovery_id", "CANCELLING"),
        _ => return None,
    };
    let mut b = owned("{\"");
    b.append(key);
    b.append("\":\"");
    let e = esc(id);
    b.append(e.as_str());
    b.append("\",\"status\":\"");
    b.append(status);
    b.append("\"}");
    Some(b)
}

/// The outcome of a candidate that could not be written: nothing written,
/// nothing verified, and the reason.
pub fn failed_outcome(record: &RecoveredFileRecord, error: String) -> (r: RecoveredFileOutcome)
    ensures
        r.candidate_id@ == record.id@,
        r.written_name@.len() == 0,
        r.requested_name@ == record.name@,
        r.bytes_written == 0,
        r.sha256_before_write@ == record.sha256@,
        r.sha256_after_write@.len() == 0,
        !r.post_write_verified,
        r.status@ == "FAILED"@,
        r.error matches Some(e) && e@ == error@,
{
    RecoveredFileOutcome {
        candidate_id: owned(record.id.as_str()),
        written_name: String::new(),
        requested_name: owned(record.name.as_str()),
        bytes_written: 0,
        sha256_before_write: owned(record.sha256.as_str()),
        sha256_after_write: String::new(),
        post_write_verified: false,
        status: owned("FAILED"),
        error: Some(error),
    }
}

/// Where the bytes of a record to preview or write come from.
pub enum ByteSource {
    /// Its resident bytes, at most the requested number.
    Resident(Vec<u8>),
    /// Its data runs, read from its source device.
    Runs,
    /// Nowhere: there are no bytes to write.
    Unavailable,
}

/// The bytes of a record, up to `limit`: its resident bytes when it has
/// them (cut to `limit`), otherwise its data runs on its source device when
/// it has runs and a source device, otherwise none.
pub fn record_byte_source(record: &RecoveredFileRecord, limit: usize) -> (r: ByteSource)
    ensures
        match record.resident_data {
            Some(d) => r matches ByteSource::Resident(b)
                && b@ == d@.subrange(0, if d@.len() < limit { d@.len() as int } else { limit as int }),
            None => if record.data_runs@.len() > 0 && record.source_device_id@.len() > 0 {
                r is Runs
            } else {
                r is Unavailable
            },
        },
{
    match &record.resident_data {
        Some(d) => {
            let n = if d.len() < limit { d.len() } else { limit };
            let mut b: Vec<u8> = Vec::new();
            let mut i: usize = 0;
            while i < n
                invariant
                    n <= d@.len(),
                    i <= n,
                    b@ == d@.subrange(0, i as int),
                decreases n - i,
            {
                b.push(d[i]);
                i = i + 1;
                assert(b@ =~= d@.subrange(0, i as int));
            }
            ByteSource::Resident(b)
        },
        None => {
            if record.data_runs.len() > 0 && record.source_device_id.as_str().unicode_len() > 0 {
                ByteSource::Runs
            } else {
                ByteSource::Unavailable
            }
        },
    }
}

/// The outcome of a candidate with no bytes to write: failed, with "no
/// recovered bytes available", exactly when there are none; otherwise no
/// outcome yet.
pub fn missing_bytes_outcome(record: &RecoveredFileRecord, byte_count: usize) -> (r: Option<RecoveredFileOutcome>)
    ensures
        r is Some <==> byte_count == 0,
        r matches Some(o) ==> o.status@ == "FAILED"@ && o.bytes_written == 0 && !o.post_write_verified
            && o.candidate_id@ == record.id@ && o.requested_name@ == record.name@
            && o.written_name@.len() == 0 && o.sha256_before_write@ == record.sha256@
            && o.sha256_after_write@.len() == 0
            && (o.error matches Some(e) && e@ == "no recovered bytes available"@),
{
    if byte_count == 0 {
        Some(failed_outcome(record, owned("no recovered bytes available")))
    } else {
        None
    }
}

/// The outcome of writing a candidate: recovered when some bytes were
/// written, the write succeeded and the hash of what was written equals the
/// candidate's; otherwise failed, with the write error, "no recovered bytes
/// available" when nothing was written, or a hash mismatch as the reason.
pub fn written_outcome(
    record: &RecoveredFileRecord,
    written_name: String,
    bytes_written: usize,
    sha256_after: String,
    write_error: Option<String>,
) -> (r: RecoveredFileOutcome)
    ensures
        r.candidate_id@ == record.id@,
        r.written_name@ == written_name@,
        r.requested_name@ == record.name@,
        r.bytes_written == bytes_written,
        r.sha256_before_write@ == record.sha256@,
        r.sha256_after_write@ == sha256_after@,
        r.post_write_verified == (write_error is None && bytes_written > 0 && sha256_after@ == record.sha256@),
        r.status@ == (if r.post_write_verified { "RECOVERED"@ } else { "FAILED"@ }),
        r.post_write_verified ==> r.error is None,
        !r.post_write_verified ==> match write_error {
            Some(e) => r.error matches Some(m) && m@ == e@,
            None => if bytes_written == 0 {
                r.error matches Some(m) && m@ == "no recovered bytes available"@
            } else {
                r.error matches Some(m) && m@ == "post-write hash mismatch"@
            },
        },
{
    let ok = bytes_written > 0 && write_verified(write_error.is_some(), sha256_after.as_str(), record.sha256.as_str());
    let error = if ok {
        None
    } else {
        match write_error {
            Some(e) => Some(e),
            None => if bytes_written == 0 {
                Some(owned("no recovered bytes available"))
            } else {
                Some(owned("post-write hash mismatch"))
            },
        }
    };
    RecoveredFileOutcome {
        candidate_id: owned(record.id.as_str()),
        written_name,
        requested_name: owned(record.name.as_str()),
        bytes_written,
        sha256_before_write: owned(record.sha256.as_str()),
        sha256_after_write: sha256_after,
        post_write_verified: ok,
        status: owned(if ok { "RECOVERED" } else { "FAILED" }),
        error,
    }
}

/// The outcome of writing `written`, the bytes that reached the destination
/// file under `written_name`: its SHA-256 is taken here and compared with
/// the candidate's, as `written_outcome` describes.
pub fn written_outcome_of(
    record: &RecoveredFileRecord,
    written_name: String,
    written: &[u8],
    write_error: Option<String>,
) -> (r: RecoveredFileOutcome)
    ensures
        r.candidate_id@ == record.id@,
        r.written_name@ == written_name@,
        r.requested_name@ == record.name@,
        r.bytes_written == written@.len(),
        r.sha256_before_write@ == record.sha256@,
        r.sha256_after_write@ == hex_lower(sha256(written@)),
        r.post_write_verified == (write_error is None && written@.len() > 0
            && hex_lower(sha256(written@)) == record.sha256@),
        r.status@ == (if r.post_write_verified { "RECOVERED"@ } else { "FAILED"@ }),
        r.post_write_verified ==> r.error is None,
        !r.post_write_verified ==> match write_error {
            Some(e) => r.error matches Some(m) && m@ == e@,
            None => if written@.len() == 0 {
                r.error matches Some(m) && m@ == "no recovered bytes available"@
            } else {
                r.error matches Some(m) && m@ == "post-write hash mismatch"@
            },
        },
{
    let after = sha256_hex(written);
    written_outcome(record, written_name, written.len(), after, write_error)
}

/// How many outcomes were verified after writing.
pub open spec fn verified_count(os: Seq<RecoveredFileOutcome>) -> int
    decreases os.len(),
{
    if os.len() == 0 {
        0
    } else {
        verified_count(os.drop_last()) + if os.last().post_write_verified { 1int } else { 0int }
    }
}

/// The succeeded and failed counts of a recovery run's outcomes.
pub fn outcome_tally(outcomes: &[RecoveredFileOutcome]) -> (r: (usize, usize))
    ensures
        r.0 == verified_count(outcomes@),
        r.0 + r.1 == outcomes@.len(),
{
    let mut ok: usize = 0;
    let mut i: usize = 0;
    while i < outcomes.len()
        invariant
            i <= outcomes@.len(),
            ok == verified_count(outcomes@.subrange(0, i as int)),
            ok <= i,
        decreases outcomes@.len() - i,
    {
        assert(outcomes@.subrange(0, i + 1).drop_last() =~= outcomes@.subrange(0, i as int));
        if outcomes[i].post_write_verified {
            ok = ok + 1;
        }
        i = i + 1;
    }
    assert(outcomes@.subrange(0, i as int) =~= outcomes@);
    (ok, outcomes.len() - ok)
}

} // verus!
