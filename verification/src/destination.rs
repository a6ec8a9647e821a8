//! Where recovered files may be written: filename sanitising, collision
//! handling, and the destination safety verdict.

use vstd::prelude::*;
use crate::text::{chars_to_string, decimal, owned, str_eq, str_to_chars, trim, trim_chars, trim_end, trim_start, u64_to_decimal};
use vstd::string::StringExecFns;

verus! {

pub open spec fn is_sep(c: char) -> bool {
    c == '/' || c == '\\'
}

/// The part of a path after its last `/` or `\`.
pub open spec fn last_segment(s: Seq<char>) -> Seq<char>
    decreases s.len(),
{
    if s.len() == 0 {
        s
    } else if is_sep(s.last()) {
        Seq::empty()
    } else {
        last_segment(s.drop_last()).push(s.last())
    }
}

/// Characters no filename may hold here: `< > : " | ? *` and NUL.
pub open spec fn is_reserved(c: char) -> bool {
    c == '<' || c == '>' || c == ':' || c == '"' || c == '|' || c == '?' || c == '*' || c == '\0'
}

pub open spec fn replace_reserved(s: Seq<char>) -> Seq<char> {
    s.map_values(|c: char| if is_reserved(c) { '_' } else { c })
}

pub open spec fn strip_dots_start(s: Seq<char>) -> Seq<char>
    decreases s.len(),
{
    if s.len() > 0 && s[0] == '.' {
        strip_dots_start(s.drop_first())
    } else {
        s
    }
}

pub open spec fn strip_dots_end(s: Seq<char>) -> Seq<char>
    decreases s.len(),
{
    if s.len() > 0 && s.last() == '.' {
        strip_dots_end(s.drop_last())
    } else {
        s
    }
}

/// A recovered name made safe to join to a destination directory: only
/// its last path component, reserved characters replaced by `_`, trimmed
/// of whitespace and then of dots at either end; `recovered_file` when
/// nothing is left.
pub open spec fn spec_sanitize(name: Seq<char>) -> Seq<char> {
    let c = strip_dots_end(strip_dots_start(trim(replace_reserved(last_segment(name)))));
    if c.len() == 0 {
        "recovered_file"@
    } else {
        c
    }
}

fn last_segment_exec(s: &[char]) -> (r: Vec<char>)
    ensures
        r@ == last_segment(s@),
{
    let mut start: usize = 0;
    let mut i: usize = 0;
    while i < s.len()
        invariant
            start <= i <= s@.len(),
            last_segment(s@.subrange(0, i as int)) == s@.subrange(start as int, i as int),
        decreases s@.len() - i,
    {
        let ghost pre = s@.subrange(0, i as int);
        assert(s@.subrange(0, i + 1).drop_last() =~= pre);
        if s[i] == '/' || s[i] == '\\' {
            start = i + 1;
            assert(s@.subrange(start as int, i + 1) =~= Seq::<char>::empty());
        } else {
            assert(s@.subrange(start as int, i + 1) =~= s@.subrange(start as int, i as int).push(s@[i as int]));
        }
        i = i + 1;
    }
    assert(s@.subrange(0, i as int) =~= s@);
    let mut v: Vec<char> = Vec::new();
    let mut j: usize = start;
    while j < s.len()
        invariant
            start <= j <= s@.len(),
            v@ == s@.subrange(start as int, j as int),
        decreases s@.len() - j,
    {
        v.push(s[j]);
        j = j + 1;
    }
    v
}

fn strip_dots(s: &[char]) -> (r: Vec<char>)
    ensures
        r@ == strip_dots_end(strip_dots_start(s@)),
{
    let mut a: usize = 0;
    assert(s@.subrange(0, s@.len() as int) =~= s@);
    while a < s.len() && s[a] == '.'
        invariant
            a <= s@.len(),
            strip_dots_start(s@) == strip_dots_start(s@.subrange(a as int, s@.len() as int)),
        decreases s@.len() - a,
    {
        assert(s@.subrange(a as int, s@.len() as int).drop_first() =~= s@.subrange(a + 1, s@.len() as int));
        a = a + 1;
    }
    let mut b: usize = s.len();
    while b > a && s[b - 1] == '.'
        invariant
            a <= b <= s@.len(),
            strip_dots_end(strip_dots_start(s@)) == strip_dots_end(s@.subrange(a as int, b as int)),
        decreases b,
    {
        assert(s@.subrange(a as int, b as int).drop_last() =~= s@.subrange(a as int, b - 1));
        b = b - 1;
    }
    let mut v: Vec<char> = Vec::new();
    let mut i: usize = a;
    while i < b
        invariant
            a <= i <= b <= s@.len(),
            v@ == s@.subrange(a as int, i as int),
        decreases b - i,
    {
        v.push(s[i]);
        i = i + 1;
    }
    v
}

/// Sanitises a recovered filename against path traversal and reserved
/// characters (see `spec_sanitize`).
pub fn sanitize_filename(name: &str) -> (r: String)
    ensures
        r@ == spec_sanitize(name@),
{
    let chars = str_to_chars(name);
    let seg = last_segment_exec(chars.as_slice());
    let mut mapped: Vec<char> = Vec::new();
    let mut i: usize = 0;
    while i < seg.len()
        invariant
            i <= seg@.len(),
            mapped@ == replace_reserved(seg@.subrange(0, i as int)),
        decreases seg@.len() - i,
    {
        let c = seg[i];
        let reserved = c == '<' || c == '>' || c == ':' || c == '"' || c == '|' || c == '?' || c == '*' || c == '\0';
        mapped.push(if reserved { '_' } else { c });
        i = i + 1;
        assert(mapped@ =~= replace_reserved(seg@.subrange(0, i as int)));
    }
    assert(seg@.subrange(0, seg@.len() as int) =~= seg@);
    let t = trim_chars(mapped.as_slice());
    let c = strip_dots(t.as_slice());
    if c.len() == 0 {
        owned("recovered_file")
    } else {
        chars_to_string(c.as_slice())
    }
}

/// Splits a name at its last `.`: (stem, `.` and extension), or the whole
/// name and an empty extension.
pub open spec fn split_ext(name: Seq<char>) -> (Seq<char>, Seq<char>)
    decreases name.len(),
{
    if name.len() == 0 {
        (name, Seq::empty())
    } else if name.last() == '.' {
        (name.drop_last(), seq!['.'])
    } else {
        let (stem, ext) = split_ext(name.drop_last());
        if ext.len() == 0 {
            (name, Seq::empty())
        } else {
            (stem, ext.push(name.last()))
        }
    }
}

/// The `i`-th alternative name for a taken name: `{stem}_{i}{ext}`.
pub open spec fn collision_name_spec(name: Seq<char>, i: nat) -> Seq<char> {
    split_ext(name).0 + "_"@ + decimal(i) + split_ext(name).1
}

/// The last-resort name: `{stem}_dup{ext}`.
pub open spec fn dup_name_spec(name: Seq<char>) -> Seq<char> {
    split_ext(name).0 + "_dup"@ + split_ext(name).1
}

fn split_ext_exec(name: &[char]) -> (r: (Vec<char>, Vec<char>))
    ensures
        r.0@ == split_ext(name@).0,
        r.1@ == split_ext(name@).1,
{
    let mut k: usize = name.len();
    while k > 0 && name[k - 1] != '.'
        invariant
            k <= name@.len(),
            forall|j: int| k <= j < name@.len() ==> name@[j] != '.',
        decreases k,
    {
        k = k - 1;
    }
    proof {
        lemma_split_ext(name@, k as int);
    }
    let mut stem: Vec<char> = Vec::new();
    let mut ext: Vec<char> = Vec::new();
    let cut: usize = if k == 0 { name.len() } else { k - 1 };
    let mut i: usize = 0;
    while i < cut
        invariant
            cut <= name@.len(),
            i <= cut,
            stem@ == name@.subrange(0, i as int),
        decreases cut - i,
    {
        stem.push(name[i]);
        i = i + 1;
    }
    let mut j: usize = cut;
    while j < name.len()
        invariant
            cut <= j <= name@.len(),
            ext@ == name@.subrange(cut as int, j as int),
        decreases name@.len() - j,
    {
        ext.push(name[j]);
        j = j + 1;
    }
    (stem, ext)
}

/// With the last `.` of `s` at `k - 1` (none when `k` is 0), the split is
/// there.
proof fn lemma_split_ext(s: Seq<char>, k: int)
    requires
        0 <= k <= s.len(),
        k > 0 ==> s[k - 1] == '.',
        forall|j: int| k <= j < s.len() ==> s[j] != '.',
    ensures
        k == 0 ==> split_ext(s) == (s, Seq::<char>::empty()),
        k > 0 ==> split_ext(s) == (s.subrange(0, k - 1), s.subrange(k - 1, s.len() as int)),
    decreases s.len(),
{
    if s.len() > 0 && s.len() > k {
        let t = s.drop_last();
        assert forall|j: int| k <= j < t.len() implies t[j] != '.' by {
            assert(t[j] == s[j]);
        }
        if k > 0 {
            assert(t[k - 1] == s[k - 1]);
        }
        lemma_split_ext(t, k);
        if k > 0 {
            assert(t.subrange(0, k - 1) =~= s.subrange(0, k - 1));
            assert(t.subrange(k - 1, t.len() as int).push(s.last()) =~= s.subrange(k - 1, s.len() as int));
        }
    } else if s.len() > 0 {
        assert(s.drop_last() =~= s.subrange(0, k - 1));
        assert(s.subrange(k - 1, s.len() as int) =~= seq!['.']);
    }
}

/// The `i`-th alternative for a taken name (`{stem}_{i}{ext}`).
pub fn collision_name(filename: &str, i: u64) -> (r: String)
    ensures
        r@ == collision_name_spec(filename@, i as nat),
{
    let chars = str_to_chars(filename);
    let (stem, ext) = split_ext_exec(chars.as_slice());
    let mut s = chars_to_string(stem.as_slice());
    s.append("_");
    let num = u64_to_decimal(i);
    s.append(num.as_str());
    let e = chars_to_string(ext.as_slice());
    s.append(e.as_str());
    s
}

fn dup_name(filename: &str) -> (r: String)
    ensures
        r@ == dup_name_spec(filename@),
{
    let chars = str_to_chars(filename);
    let (stem, ext) = split_ext_exec(chars.as_slice());
    let mut s = chars_to_string(stem.as_slice());
    s.append("_dup");
    let e = chars_to_string(ext.as_slice());
    s.append(e.as_str());
    s
}

/// The names taken in a directory, by their characters.
pub open spec fn taken_names(taken: Seq<String>) -> Seq<Seq<char>> {
    taken.map_values(|t: String| t@)
}

/// The first free name among `{stem}_{i}{ext}` for `i` from `i` to 9999,
/// then `{stem}_dup{ext}`; none when all of them are taken.
pub open spec fn first_free_from(filename: Seq<char>, taken: Seq<Seq<char>>, i: nat) -> Option<Seq<char>>
    decreases 10000 - i,
{
    if i >= 10000 {
        if !taken.contains(dup_name_spec(filename)) {
            Some(dup_name_spec(filename))
        } else {
            None
        }
    } else if !taken.contains(collision_name_spec(filename, i)) {
        Some(collision_name_spec(filename, i))
    } else {
        first_free_from(filename, taken, i + 1)
    }
}

/// The name a recovered file is written under, given the names already
/// taken in the destination: the name itself when free, otherwise the
/// first free `{stem}_{i}{ext}` for `i` from 1 to 9999, otherwise
/// `{stem}_dup{ext}` when that is free; none when every one is taken, so
/// that nothing is ever overwritten.
pub open spec fn spec_free_name(filename: Seq<char>, taken: Seq<Seq<char>>) -> Option<Seq<char>> {
    if !taken.contains(filename) {
        Some(filename)
    } else {
        first_free_from(filename, taken, 1)
    }
}

/// Whether `name` is among `taken`.
fn name_taken(taken: &[String], name: &str) -> (r: bool)
    ensures
        r == taken_names(taken@).contains(name@),
{
    let mut i: usize = 0;
    while i < taken.len()
        invariant
            i <= taken@.len(),
            forall|j: int| 0 <= j < i ==> taken@[j]@ != name@,
        decreases taken@.len() - i,
    {
        if str_eq(taken[i].as_str(), name) {
            assert(taken_names(taken@)[i as int] == name@);
            return true;
        }
        i = i + 1;
    }
    proof {
        if taken_names(taken@).contains(name@) {
            let j = choose|j: int| 0 <= j < taken_names(taken@).len() && taken_names(taken@)[j] == name@;
            assert(taken@[j]@ == name@);
        }
    }
    false
}

/// The free name for `filename` among the names `taken` in the
/// destination (see `spec_free_name`): never one of the taken names.
pub fn choose_free_name(filename: &str, taken: &[String]) -> (r: Option<String>)
    ensures
        r is Some <==> spec_free_name(filename@, taken_names(taken@)) is Some,
        r matches Some(n) ==> spec_free_name(filename@, taken_names(taken@)) == Some(n@),
        r matches Some(n) ==> !taken_names(taken@).contains(n@),
{
    if !name_taken(taken, filename) {
        return Some(owned(filename));
    }
    let mut i: u64 = 1;
    while i < 10000
        invariant
            1 <= i <= 10000,
            taken_names(taken@).contains(filename@),
            first_free_from(filename@, taken_names(taken@), 1) == first_free_from(filename@, taken_names(taken@), i as nat),
        decreases 10000 - i,
    {
        let candidate = collision_name(filename, i);
        if !name_taken(taken, candidate.as_str()) {
            return Some(candidate);
        }
        i = i + 1;
    }
    let dup = dup_name(filename);
    if name_taken(taken, dup.as_str()) {
        return None;
    }
    Some(dup)
}

/// A path separator (`/`, or `\` on Windows).
pub open spec fn is_path_sep(c: char) -> bool {
    c == '/' || c == '\\'
}

/// Canonical path `src` lies inside canonical path `dst` (or is it): `dst`
/// is a whole-component prefix of `src`.
pub open spec fn spec_path_within(src: Seq<char>, dst: Seq<char>) -> bool {
    src == dst || (0 < dst.len() < src.len() && src.subrange(0, dst.len() as int) == dst
        && (is_path_sep(dst.last()) || is_path_sep(src[dst.len() as int])))
}

/// Whether canonical path `src` lies inside canonical path `dst`.
pub fn path_within(src: &str, dst: &str) -> (r: bool)
    ensures
        r == spec_path_within(src@, dst@),
{
    let a = str_to_chars(src);
    let b = str_to_chars(dst);
    if a.len() == b.len() {
        let mut i: usize = 0;
        while i < a.len()
            invariant
                a@ == src@,
                b@ == dst@,
                a@.len() == b@.len(),
                i <= a@.len(),
                forall|j: int| 0 <= j < i ==> a@[j] == b@[j],
            decreases a@.len() - i,
        {
            if a[i] != b[i] {
                return false;
            }
            i = i + 1;
        }
        assert(a@ =~= b@);
        return true;
    }
    if b.len() == 0 || b.len() > a.len() {
        return false;
    }
    let mut i: usize = 0;
    while i < b.len()
        invariant
            a@ == src@,
            b@ == dst@,
            b@.len() < a@.len(),
            i <= b@.len(),
            forall|j: int| 0 <= j < i ==> a@[j] == b@[j],
        decreases b@.len() - i,
    {
        if a[i] != b[i] {
            assert(a@.subrange(0, b@.len() as int)[i as int] != b@[i as int]);
            return false;
        }
        i = i + 1;
    }
    assert(a@.subrange(0, b@.len() as int) =~= b@);
    let last = b[b.len() - 1];
    let next = a[b.len()];
    last == '/' || last == '\\' || next == '/' || next == '\\'
}

/// The outcome of checking a recovery destination.
pub struct DestinationCheck {
    pub different_from_source: bool,
    pub writable: bool,
    pub sufficient_space: bool,
    pub free_bytes: u64,
    pub required_bytes: u64,
    pub safe: bool,
    pub issues: Vec<String>,
}

/// What was found out about one registered source against the
/// destination: whether it lies inside the destination or on the same
/// filesystem, and whether it is on the same physical device.
pub struct SourceConflict {
    pub device_id: String,
    pub backing_path: String,
    pub same_filesystem: bool,
    pub same_physical_device: bool,
}

pub open spec fn same_fs_issue(c: SourceConflict) -> Seq<char> {
    "Destination is on the same filesystem/device as registered source '"@ + c.device_id@ + "' ("@ + c.backing_path@ + ")"@
}

pub open spec fn same_device_issue(c: SourceConflict) -> Seq<char> {
    "Destination is on the SAME PHYSICAL DEVICE as registered source '"@ + c.device_id@ + "' ("@ + c.backing_path@ + ")"@
}

/// The issues the sources raise, in order: for each, a same-filesystem
/// issue then a same-device issue, where they apply.
pub open spec fn source_issues(cs: Seq<SourceConflict>) -> Seq<Seq<char>>
    decreases cs.len(),
{
    if cs.len() == 0 {
        Seq::empty()
    } else {
        let c = cs.last();
        source_issues(cs.drop_last())
            + (if c.same_filesystem { seq![same_fs_issue(c)] } else { Seq::empty() })
            + (if c.same_physical_device { seq![same_device_issue(c)] } else { Seq::empty() })
    }
}

pub open spec fn space_issue(free: u64, required: u64) -> Seq<char> {
    "Insufficient free space: "@ + decimal(free as nat) + " bytes available, "@ + decimal(required as nat) + " bytes required"@
}

/// The verdict on a destination: different from every source unless one
/// conflicts (an unresolvable destination counts as different, with an
/// issue), sufficient space when free space exceeds what is required, and
/// safe when different, writable and with enough space. Issues come in the
/// order sources, resolution, writability, space.
pub open spec fn verdict_ok(
    r: DestinationCheck,
    resolved: bool,
    sources: Seq<SourceConflict>,
    writable: bool,
    free_bytes: u64,
    required_bytes: u64,
) -> bool {
    let conflicts = if resolved { source_issues(sources) } else { Seq::empty() };
    let different = conflicts.len() == 0;
    let sufficient = free_bytes > required_bytes;
    &&& r.different_from_source == different
    &&& r.writable == writable
    &&& r.sufficient_space == sufficient
    &&& r.free_bytes == free_bytes
    &&& r.required_bytes == required_bytes
    &&& r.safe == (different && writable && sufficient)
    &&& r.issues@.map_values(|s: String| s@) == conflicts
        + (if resolved { Seq::empty() } else { seq!["Destination path could not be resolved"@] })
        + (if writable { Seq::empty() } else { seq!["Destination is not writable (test write failed)"@] })
        + (if sufficient { Seq::empty() } else { seq![space_issue(free_bytes, required_bytes)] })
}

fn quoted_issue(prefix: &str, c: &SourceConflict) -> (r: String)
    ensures
        r@ == prefix@ + c.device_id@ + "' ("@ + c.backing_path@ + ")"@,
{
    let mut s = owned(prefix);
    s.append(c.device_id.as_str());
    s.append("' (");
    s.append(c.backing_path.as_str());
    s.append(")");
    s
}

/// Builds the destination verdict from what was found out about it (see
/// `verdict_ok`).
pub fn destination_verdict(
    resolved: bool,
    sources: &Vec<SourceConflict>,
    writable: bool,
    free_bytes: u64,
    required_bytes: u64,
) -> (r: DestinationCheck)
    ensures
        verdict_ok(r, resolved, sources@, writable, free_bytes, required_bytes),
{
    let mut issues: Vec<String> = Vec::new();
    let mut different = true;
    if resolved {
        let mut k: usize = 0;
        while k < sources.len()
            invariant
                k <= sources@.len(),
                issues@.map_values(|s: String| s@) == source_issues(sources@.subrange(0, k as int)),
                different == (issues@.len() == 0),
            decreases sources@.len() - k,
        {
            let c = &sources[k];
            let ghost before = issues@.map_values(|s: String| s@);
            let ghost sub = sources@.subrange(0, k + 1);
            proof {
                assert(sub.drop_last() =~= sources@.subrange(0, k as int));
                assert(sub.last() == *c);
            }
            let ghost mid = if c.same_filesystem { before.push(same_fs_issue(*c)) } else { before };
            if c.same_filesystem {
                different = false;
                issues.push(quoted_issue("Destination is on the same filesystem/device as registered source '", c));
            }
            proof {
                assert(issues@.map_values(|s: String| s@) =~= mid);
            }
            if c.same_physical_device {
                different = false;
                issues.push(quoted_issue("Destination is on the SAME PHYSICAL DEVICE as registered source '", c));
            }
            proof {
                let fin = if c.same_physical_device { mid.push(same_device_issue(*c)) } else { mid };
                assert(issues@.map_values(|s: String| s@) =~= fin);
                assert(source_issues(sub) =~= fin);
            }
            k = k + 1;
        }
        proof {
            assert(sources@.subrange(0, k as int) =~= sources@);
        }
    } else {
        issues.push(owned("Destination path could not be resolved"));
    }
    let ghost after_sources = issues@.map_values(|s: String| s@);
    if !writable {
        issues.push(owned("Destination is not writable (test write failed)"));
    }
    let ghost after_write = issues@.map_values(|s: String| s@);
    proof {
        assert(after_write =~= after_sources + (if writable { Seq::empty() } else { seq!["Destination is not writable (test write failed)"@] }));
    }
    let sufficient = free_bytes > required_bytes;
    if !sufficient {
        let mut m = owned("Insufficient free space: ");
        let f = u64_to_decimal(free_bytes);
        m.append(f.as_str());
        m.append(" bytes available, ");
        let q = u64_to_decimal(required_bytes);
        m.append(q.as_str());
        m.append(" bytes required");
        issues.push(m);
    }
    proof {
        assert(issues@.map_values(|s: String| s@) =~= after_write + (if sufficient { Seq::empty() } else { seq![space_issue(free_bytes, required_bytes)] }));
        if !resolved {
            assert(after_sources =~= seq!["Destination path could not be resolved"@]);
        }
    }
    DestinationCheck {
        different_from_source: different,
        writable,
        sufficient_space: sufficient,
        free_bytes,
        required_bytes,
        safe: different && writable && sufficient,
        issues,
    }
}


/// A character a sanitised name may hold: no path separator, nothing
/// reserved.
pub open spec fn safe_char(c: char) -> bool {
    !is_sep(c) && !is_reserved(c)
}

pub open spec fn all_safe(s: Seq<char>) -> bool {
    forall|i: int| 0 <= i < s.len() ==> safe_char(#[trigger] s[i])
}

proof fn lemma_last_segment_no_sep(s: Seq<char>)
    ensures
        forall|i: int| 0 <= i < last_segment(s).len() ==> !is_sep(#[trigger] last_segment(s)[i]),
    decreases s.len(),
{
    if s.len() > 0 && !is_sep(s.last()) {
        lemma_last_segment_no_sep(s.drop_last());
        let t = last_segment(s.drop_last());
        assert forall|i: int| 0 <= i < t.push(s.last()).len() implies !is_sep(#[trigger] t.push(s.last())[i]) by {
            if i < t.len() {
                assert(t.push(s.last())[i] == t[i]);
            }
        }
    }
}

proof fn lemma_safe_drop_first(s: Seq<char>)
    requires
        all_safe(s),
        s.len() > 0,
    ensures
        all_safe(s.drop_first()),
        all_safe(s.drop_last()),
{
    assert forall|i: int| 0 <= i < s.drop_first().len() implies safe_char(#[trigger] s.drop_first()[i]) by {
        assert(s.drop_first()[i] == s[i + 1]);
    }
    assert forall|i: int| 0 <= i < s.drop_last().len() implies safe_char(#[trigger] s.drop_last()[i]) by {
        assert(s.drop_last()[i] == s[i]);
    }
}

proof fn lemma_safe_trim_start(s: Seq<char>)
    requires
        all_safe(s),
    ensures
        all_safe(trim_start(s)),
        all_safe(strip_dots_start(s)),
    decreases s.len(),
{
    if s.len() > 0 {
        lemma_safe_drop_first(s);
        lemma_safe_trim_start(s.drop_first());
    }
}

proof fn lemma_safe_trim_end(s: Seq<char>)
    requires
        all_safe(s),
    ensures
        all_safe(trim_end(s)),
        all_safe(strip_dots_end(s)),
    decreases s.len(),
{
    if s.len() > 0 {
        lemma_safe_drop_first(s);
        lemma_safe_trim_end(s.drop_last());
    }
}

/// No source raises an issue exactly when none lies on the destination's
/// filesystem or physical device.
proof fn lemma_no_source_issues(cs: Seq<SourceConflict>)
    ensures
        (source_issues(cs).len() == 0) == (forall|i: int| 0 <= i < cs.len()
            ==> !(#[trigger] cs[i]).same_filesystem && !cs[i].same_physical_device),
    decreases cs.len(),
{
    if cs.len() > 0 {
        lemma_no_source_issues(cs.drop_last());
        let c = cs.last();
        if source_issues(cs).len() == 0 {
            assert forall|i: int| 0 <= i < cs.len() implies !(#[trigger] cs[i]).same_filesystem && !cs[i].same_physical_device by {
                if i < cs.len() - 1 {
                    assert(cs[i] == cs.drop_last()[i]);
                }
            }
        } else if forall|i: int| 0 <= i < cs.len() ==> !(#[trigger] cs[i]).same_filesystem && !cs[i].same_physical_device {
            assert forall|i: int| 0 <= i < cs.drop_last().len() implies !(#[trigger] cs.drop_last()[i]).same_filesystem
                && !cs.drop_last()[i].same_physical_device by {
                assert(cs.drop_last()[i] == cs[i]);
            }
            assert(!cs[cs.len() - 1].same_filesystem);
        }
    }
}

/// A destination judged safe is writable, has more free space than is
/// required, and, where it could be resolved, shares neither filesystem
/// nor physical device with any registered source: recovery never writes
/// onto the evidence.
pub proof fn law_safe_destination_spares_sources(
    r: DestinationCheck,
    resolved: bool,
    sources: Seq<SourceConflict>,
    writable: bool,
    free_bytes: u64,
    required_bytes: u64,
)
    requires
        verdict_ok(r, resolved, sources, writable, free_bytes, required_bytes),
        r.safe,
    ensures
        writable,
        free_bytes > required_bytes,
        resolved ==> forall|i: int| 0 <= i < sources.len()
            ==> !(#[trigger] sources[i]).same_filesystem && !sources[i].same_physical_device,
{
    lemma_no_source_issues(sources);
}

proof fn lemma_strip_dots_start(s: Seq<char>)
    ensures
        strip_dots_start(s).len() > 0 ==> strip_dots_start(s)[0] != '.',
    decreases s.len(),
{
    if s.len() > 0 && s[0] == '.' {
        lemma_strip_dots_start(s.drop_first());
    }
}

proof fn lemma_strip_dots_end(s: Seq<char>)
    ensures
        strip_dots_end(s).len() <= s.len(),
        strip_dots_end(s) == s.subrange(0, strip_dots_end(s).len() as int),
        strip_dots_end(s).len() > 0 ==> strip_dots_end(s).last() != '.',
    decreases s.len(),
{
    if s.len() > 0 && s.last() == '.' {
        lemma_strip_dots_end(s.drop_last());
        assert(s.drop_last().subrange(0, strip_dots_end(s).len() as int) =~= s.subrange(0, strip_dots_end(s).len() as int));
    } else {
        assert(s.subrange(0, s.len() as int) =~= s);
    }
}

/// A sanitised name is never empty, holds no path separator and no
/// reserved character, and neither begins nor ends with a dot, whatever
/// the recovered name was.
pub proof fn law_sanitized_name_is_safe(name: Seq<char>)
    ensures
        spec_sanitize(name).len() > 0,
        all_safe(spec_sanitize(name)),
        spec_sanitize(name)[0] != '.',
        spec_sanitize(name).last() != '.',
{
    let t = strip_dots_start(trim(replace_reserved(last_segment(name))));
    lemma_strip_dots_start(trim(replace_reserved(last_segment(name))));
    lemma_strip_dots_end(t);
    if strip_dots_end(t).len() > 0 {
        assert(strip_dots_end(t)[0] == t[0]);
    }
    let seg = last_segment(name);
    lemma_last_segment_no_sep(name);
    let m = replace_reserved(seg);
    assert forall|i: int| 0 <= i < m.len() implies safe_char(#[trigger] m[i]) by {
        assert(!is_sep(seg[i]));
    }
    lemma_safe_trim_start(m);
    lemma_safe_trim_end(trim_start(m));
    lemma_safe_trim_start(trim(m));
    lemma_safe_trim_end(strip_dots_start(trim(m)));
    reveal_strlit("recovered_file");
}

} // verus!
