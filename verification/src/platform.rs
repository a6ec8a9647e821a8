//! Raw physical devices: reading the platforms' disk listings, what a
//! device entry says once its read-only open was tried, and which disk a
//! path lies on.

use vstd::prelude::*;
use crate::device::{chars_starts_with, starts_with_chars};
use crate::text::{
    chars_to_string, find_chars_from, find_lit, first_word, first_word_chars, leading_digits, leading_digits_from,
    lines_chars, owned, parse_u64, parse_u64_chars, str_eq, split_at_char, split_chars, split_lines, str_to_chars, trim,
    trim_chars, words, words_chars,
};
use vstd::string::StringExecFns;

verus! {

/// A raw device found on the machine. Only one that could be opened
/// read-only is scan-capable.
pub struct RawDeviceInfo {
    pub id: String,
    pub name: String,
    pub path: String,
    pub size_bytes: u64,
    pub platform: String,
    pub scan_capable: bool,
    pub reason: Option<String>,
}

/// A line of `lsblk -b -dn -o NAME,SIZE,TYPE`: a whole disk, with its name
/// and size in bytes; other lines, and ones whose size does not parse, are
/// skipped.
pub open spec fn lsblk_entry(line: Seq<char>) -> Option<(Seq<char>, u64)> {
    let p = words(line);
    if p.len() < 3 || p[2] != "disk"@ {
        None
    } else {
        match parse_u64(p[1]) {
            Some(v) => Some((p[0], v)),
            None => None,
        }
    }
}

pub open spec fn lsblk_disks(lines: Seq<Seq<char>>) -> Seq<(Seq<char>, u64)>
    decreases lines.len(),
{
    if lines.len() == 0 {
        Seq::empty()
    } else {
        let r = lsblk_disks(lines.drop_last());
        match lsblk_entry(lines.last()) {
            Some(e) => r.push(e),
            None => r,
        }
    }
}

fn chars_eq_lit(a: &Vec<char>, lit: &str) -> (r: bool)
    ensures
        r == (a@ == lit@),
{
    let b = str_to_chars(lit);
    if a.len() != b.len() {
        return false;
    }
    let mut i: usize = 0;
    while i < a.len()
        invariant
            a@.len() == b@.len(),
            b@ == lit@,
            i <= a@.len(),
            forall|j: int| 0 <= j < i ==> a@[j] == b@[j],
        decreases a@.len() - i,
    {
        if a[i] != b[i] {
            return false;
        }
        i = i + 1;
    }
    assert(a@ =~= b@);
    true
}

fn lsblk_entry_exec(line: &Vec<char>) -> (r: Option<(String, u64)>)
    ensures
        match r {
            Some((n, v)) => lsblk_entry(line@) == Some((n@, v)),
            None => lsblk_entry(line@) is None,
        },
{
    let p = words_chars(line.as_slice());
    proof {
        assert(p@.map_values(|w: Vec<char>| w@).len() == p@.len());
    }
    if p.len() < 3 {
        return None;
    }
    proof {
        assert(p@.map_values(|w: Vec<char>| w@)[2] == p@[2]@);
        assert(p@.map_values(|w: Vec<char>| w@)[1] == p@[1]@);
        assert(p@.map_values(|w: Vec<char>| w@)[0] == p@[0]@);
    }
    if !chars_eq_lit(&p[2], "disk") {
        return None;
    }
    match parse_u64_chars(p[1].as_slice()) {
        Some(v) => Some((chars_to_string(p[0].as_slice()), v)),
        None => None,
    }
}

/// The whole disks listed in `lsblk` output (see `lsblk_entry`).
pub fn parse_lsblk_disks(text: &str) -> (r: Vec<(String, u64)>)
    ensures
        r@.map_values(|e: (String, u64)| (e.0@, e.1)) == lsblk_disks(split_lines(text@)),
{
    let chars = str_to_chars(text);
    let lines = lines_chars(chars.as_slice());
    let ghost ls = split_lines(text@);
    let mut out: Vec<(String, u64)> = Vec::new();
    let mut k: usize = 0;
    while k < lines.len()
        invariant
            k <= lines@.len(),
            ls == lines@.map_values(|l: Vec<char>| l@),
            out@.map_values(|e: (String, u64)| (e.0@, e.1)) == lsblk_disks(ls.subrange(0, k as int)),
        decreases lines@.len() - k,
    {
        let ghost before = out@.map_values(|e: (String, u64)| (e.0@, e.1));
        assert(ls.subrange(0, k + 1).drop_last() =~= ls.subrange(0, k as int));
        assert(ls.subrange(0, k + 1).last() == lines@[k as int]@);
        match lsblk_entry_exec(&lines[k]) {
            Some(e) => {
                out.push(e);
                assert(out@.map_values(|e: (String, u64)| (e.0@, e.1)) =~= before.push(lsblk_entry(lines@[k as int]@).unwrap()));
            },
            None => {},
        }
        k = k + 1;
    }
    assert(ls.subrange(0, k as int) =~= ls);
    out
}

/// The entry for Linux disk `name` of `size` bytes at `/dev/{name}`:
/// scan-capable when the read-only open succeeded, otherwise with the
/// open error as the reason.
pub fn linux_raw_device(name: &str, size: u64, open_error: Option<String>) -> (r: RawDeviceInfo)
    ensures
        r.id@ == name@,
        r.path@ == "/dev/"@ + name@,
        r.name@ == name@ + " ("@ + "/dev/"@ + name@ + ")"@,
        r.size_bytes == size,
        r.platform@ == "linux"@,
        r.scan_capable == open_error is None,
        match open_error {
            None => r.reason is None,
            Some(e) => r.reason matches Some(m) && m@ == "read-only open failed: "@ + e@,
        },
{
    let mut path = owned("/dev/");
    path.append(name);
    let mut label = owned(name);
    label.append(" (");
    label.append(path.as_str());
    label.append(")");
    let (scan_capable, reason) = match open_error {
        None => (true, None),
        Some(e) => {
            let mut m = owned("read-only open failed: ");
            m.append(e.as_str());
            (false, Some(m))
        },
    };
    RawDeviceInfo {
        id: owned(name),
        name: label,
        path,
        size_bytes: size,
        platform: owned("linux"),
        scan_capable,
        reason,
    }
}

/// A line of the Windows disk listing (`Index|Model|Size` per disk): at
/// least three `|`-separated parts, giving index, model and size; a size
/// that does not parse once trimmed counts as 0.
pub open spec fn windows_disk_entry(line: Seq<char>) -> Option<(Seq<char>, Seq<char>, u64)> {
    let p = split_at_char(line, '|');
    if p.len() < 3 {
        None
    } else {
        Some((p[0], p[1], match parse_u64(trim(p[2])) {
            Some(v) => v,
            None => 0,
        }))
    }
}

pub open spec fn windows_disks(lines: Seq<Seq<char>>) -> Seq<(Seq<char>, Seq<char>, u64)>
    decreases lines.len(),
{
    if lines.len() == 0 {
        Seq::empty()
    } else {
        let r = windows_disks(lines.drop_last());
        match windows_disk_entry(lines.last()) {
            Some(e) => r.push(e),
            None => r,
        }
    }
}

fn windows_disk_entry_exec(line: &Vec<char>) -> (r: Option<(String, String, u64)>)
    ensures
        match r {
            Some((a, b, c)) => windows_disk_entry(line@) == Some((a@, b@, c)),
            None => windows_disk_entry(line@) is None,
        },
{
    let p = split_chars(line.as_slice(), '|');
    proof {
        assert(p@.map_values(|w: Vec<char>| w@).len() == p@.len());
    }
    if p.len() < 3 {
        return None;
    }
    proof {
        assert(p@.map_values(|w: Vec<char>| w@)[0] == p@[0]@);
        assert(p@.map_values(|w: Vec<char>| w@)[1] == p@[1]@);
        assert(p@.map_values(|w: Vec<char>| w@)[2] == p@[2]@);
    }
    let t = trim_chars(p[2].as_slice());
    let size = match parse_u64_chars(t.as_slice()) {
        Some(v) => v,
        None => 0,
    };
    Some((chars_to_string(p[0].as_slice()), chars_to_string(p[1].as_slice()), size))
}

/// The disks of the Windows disk listing, as (index, model, size).
pub fn parse_windows_disks(text: &str) -> (r: Vec<(String, String, u64)>)
    ensures
        r@.map_values(|e: (String, String, u64)| (e.0@, e.1@, e.2)) == windows_disks(split_lines(text@)),
{
    let chars = str_to_chars(text);
    let lines = lines_chars(chars.as_slice());
    let ghost ls = split_lines(text@);
    let mut out: Vec<(String, String, u64)> = Vec::new();
    let mut k: usize = 0;
    while k < lines.len()
        invariant
            k <= lines@.len(),
            ls == lines@.map_values(|l: Vec<char>| l@),
            out@.map_values(|e: (String, String, u64)| (e.0@, e.1@, e.2)) == windows_disks(ls.subrange(0, k as int)),
        decreases lines@.len() - k,
    {
        let ghost before = out@.map_values(|e: (String, String, u64)| (e.0@, e.1@, e.2));
        assert(ls.subrange(0, k + 1).drop_last() =~= ls.subrange(0, k as int));
        assert(ls.subrange(0, k + 1).last() == lines@[k as int]@);
        match windows_disk_entry_exec(&lines[k]) {
            Some(e) => {
                out.push(e);
                assert(out@.map_values(|e: (String, String, u64)| (e.0@, e.1@, e.2)) =~= before.push(
                    windows_disk_entry(lines@[k as int]@).unwrap(),
                ));
            },
            None => {},
        }
        k = k + 1;
    }
    assert(ls.subrange(0, k as int) =~= ls);
    out
}

/// The entry for Windows disk `index` (`PhysicalDrive{index}`, opened as
/// `\\.\PhysicalDrive{index}`): scan-capable when the read-only open
/// succeeded, otherwise with the open error as the reason.
pub fn windows_raw_device(index: &str, model: &str, size: u64, open_error: Option<String>) -> (r: RawDeviceInfo)
    ensures
        r.id@ == "PhysicalDrive"@ + index@,
        r.name@ == model@,
        r.path@ == "\\\\.\\PhysicalDrive"@ + index@,
        r.size_bytes == size,
        r.platform@ == "windows"@,
        r.scan_capable == open_error is None,
        match open_error {
            None => r.reason is None,
            Some(e) => r.reason matches Some(m) && m@ == e@,
        },
{
    let mut id = owned("PhysicalDrive");
    id.append(index);
    let mut path = owned("\\\\.\\PhysicalDrive");
    path.append(index);
    let scan_capable = open_error.is_none();
    RawDeviceInfo { id, name: owned(model), path, size_bytes: size, platform: owned("windows"), scan_capable, reason: open_error }
}

/// The disk a `diskutil list` line names: the word that starts at the
/// first `/dev/disk` in it.
pub open spec fn diskutil_entry(line: Seq<char>) -> Option<Seq<char>> {
    match find_chars_from(line, "/dev/disk"@, 0) {
        None => None,
        Some(pos) => {
            let id = match first_word(line.subrange(pos, line.len() as int)) {
                Some(w) => w,
                None => Seq::empty(),
            };
            if starts_with_chars(id, "/dev/disk"@) { Some(id) } else { None }
        },
    }
}

/// The disks `diskutil list physical` names, each once, in order of first
/// mention.
pub open spec fn diskutil_disks(lines: Seq<Seq<char>>) -> Seq<Seq<char>>
    decreases lines.len(),
{
    if lines.len() == 0 {
        Seq::empty()
    } else {
        let r = diskutil_disks(lines.drop_last());
        match diskutil_entry(lines.last()) {
            Some(id) => if r.contains(id) { r } else { r.push(id) },
            None => r,
        }
    }
}

fn sub_vec(l: &Vec<char>, a: usize) -> (r: Vec<char>)
    requires
        a <= l@.len(),
    ensures
        r@ == l@.subrange(a as int, l@.len() as int),
{
    let mut r: Vec<char> = Vec::new();
    let mut j: usize = a;
    while j < l.len()
        invariant
            a <= j <= l@.len(),
            r@ == l@.subrange(a as int, j as int),
        decreases l@.len() - j,
    {
        r.push(l[j]);
        j = j + 1;
    }
    r
}

fn diskutil_entry_exec(line: &Vec<char>) -> (r: Option<Vec<char>>)
    ensures
        match r {
            Some(id) => diskutil_entry(line@) == Some(id@),
            None => diskutil_entry(line@) is None,
        },
{
    let pos = match find_lit(line.as_slice(), "/dev/disk") {
        Some(p) => p,
        None => return None,
    };
    let tail = sub_vec(line, pos);
    let id = match first_word_chars(tail.as_slice()) {
        Some(w) => w,
        None => Vec::new(),
    };
    if chars_starts_with(&id, "/dev/disk") { Some(id) } else { None }
}

fn contains_word(v: &Vec<Vec<char>>, w: &Vec<char>) -> (r: bool)
    ensures
        r == v@.map_values(|x: Vec<char>| x@).contains(w@),
{
    let ghost vs = v@.map_values(|x: Vec<char>| x@);
    let mut k: usize = 0;
    while k < v.len()
        invariant
            k <= v@.len(),
            vs == v@.map_values(|x: Vec<char>| x@),
            forall|j: int| 0 <= j < k ==> vs[j] != w@,
        decreases v@.len() - k,
    {
        let a = &v[k];
        let mut same = a.len() == w.len();
        let mut i: usize = 0;
        while same && i < a.len()
            invariant
                i <= a@.len(),
                same ==> a@.len() == w@.len(),
                same ==> forall|x: int| 0 <= x < i ==> a@[x] == w@[x],
                !same ==> a@ != w@,
            decreases a@.len() - i,
        {
            if a[i] != w[i] {
                same = false;
                assert(a@[i as int] != w@[i as int]);
            }
            i = i + 1;
        }
        if same {
            assert(a@ =~= w@);
            assert(vs[k as int] == w@);
            return true;
        }
        assert(vs[k as int] == a@);
        k = k + 1;
    }
    false
}

/// The disks named in `diskutil list physical` output, each once.
pub fn parse_diskutil_list(text: &str) -> (r: Vec<String>)
    ensures
        r@.map_values(|s: String| s@) == diskutil_disks(split_lines(text@)),
{
    let chars = str_to_chars(text);
    let lines = lines_chars(chars.as_slice());
    let ghost ls = split_lines(text@);
    let mut ids: Vec<Vec<char>> = Vec::new();
    let mut k: usize = 0;
    while k < lines.len()
        invariant
            k <= lines@.len(),
            ls == lines@.map_values(|l: Vec<char>| l@),
            ids@.map_values(|x: Vec<char>| x@) == diskutil_disks(ls.subrange(0, k as int)),
        decreases lines@.len() - k,
    {
        let ghost before = ids@.map_values(|x: Vec<char>| x@);
        assert(ls.subrange(0, k + 1).drop_last() =~= ls.subrange(0, k as int));
        assert(ls.subrange(0, k + 1).last() == lines@[k as int]@);
        match diskutil_entry_exec(&lines[k]) {
            Some(id) => {
                if !contains_word(&ids, &id) {
                    let ghost w = id@;
                    ids.push(id);
                    assert(ids@.map_values(|x: Vec<char>| x@) =~= before.push(w));
                }
            },
            None => {},
        }
        k = k + 1;
    }
    assert(ls.subrange(0, k as int) =~= ls);
    let mut out: Vec<String> = Vec::new();
    let mut j: usize = 0;
    while j < ids.len()
        invariant
            j <= ids@.len(),
            out@.map_values(|s: String| s@) == ids@.map_values(|x: Vec<char>| x@).subrange(0, j as int),
        decreases ids@.len() - j,
    {
        let ghost before = out@.map_values(|s: String| s@);
        out.push(chars_to_string(ids[j].as_slice()));
        assert(out@.map_values(|s: String| s@) =~= before.push(ids@[j as int]@));
        assert(ids@.map_values(|x: Vec<char>| x@).subrange(0, j + 1) =~= ids@.map_values(|x: Vec<char>| x@).subrange(0, j as int).push(ids@[j as int]@));
        j = j + 1;
    }
    assert(ids@.map_values(|x: Vec<char>| x@).subrange(0, j as int) =~= ids@.map_values(|x: Vec<char>| x@));
    out
}

/// `s` with its first `from` replaced by `to` (`replacen(from, to, 1)`).
pub open spec fn replace_first(s: Seq<char>, from: Seq<char>, to: Seq<char>) -> Seq<char> {
    match find_chars_from(s, from, 0) {
        Some(i) => s.subrange(0, i) + to + s.subrange(i + from.len(), s.len() as int),
        None => s,
    }
}

/// The entry for macOS disk `disk`, opened through its raw node
/// (`/dev/rdisk…`): scan-capable when the read-only open succeeded,
/// otherwise with the open error as the reason; its size is not known.
pub fn macos_raw_device(disk: &str, open_error: Option<String>) -> (r: RawDeviceInfo)
    ensures
        r.id@ == disk@,
        r.name@ == disk@,
        r.path@ == replace_first(disk@, "/dev/disk"@, "/dev/rdisk"@),
        r.size_bytes == 0,
        r.platform@ == "macos"@,
        r.scan_capable == open_error is None,
        match open_error {
            None => r.reason is None,
            Some(e) => r.reason matches Some(m) && m@ == e@,
        },
{
    let d = str_to_chars(disk);
    let path = match find_lit(d.as_slice(), "/dev/disk") {
        Some(i) => {
            proof {
                reveal_strlit("/dev/disk");
            }
            let mut p: Vec<char> = Vec::new();
            let mut j: usize = 0;
            while j < i
                invariant
                    i + 9 <= d@.len(),
                    j <= i,
                    p@ == d@.subrange(0, j as int),
                decreases i - j,
            {
                p.push(d[j]);
                j = j + 1;
            }
            let mut s = chars_to_string(p.as_slice());
            s.append("/dev/rdisk");
            let dl = d.len();
            assert(i + 9 <= dl);
            let rest = sub_vec(&d, i + 9);
            let r = chars_to_string(rest.as_slice());
            s.append(r.as_str());
            s
        },
        None => owned(disk),
    };
    let scan_capable = open_error.is_none();
    RawDeviceInfo { id: owned(disk), name: owned(disk), path, size_bytes: 0, platform: owned("macos"), scan_capable, reason: open_error }
}

/// The disk number a Windows path names directly: the digits right after
/// its first `PhysicalDrive`, when there is at least one.
pub open spec fn physical_drive_number(path: Seq<char>) -> Option<Seq<char>> {
    match find_chars_from(path, "PhysicalDrive"@, 0) {
        Some(pos) => {
            let d = leading_digits(path.subrange(pos + 13, path.len() as int));
            if d.len() > 0 { Some(d) } else { None }
        },
        None => None,
    }
}

/// The disk number a `PhysicalDrive{n}` path names, if any.
pub fn physical_drive_number_of(path: &str) -> (r: Option<String>)
    ensures
        match r {
            Some(n) => physical_drive_number(path@) == Some(n@),
            None => physical_drive_number(path@) is None,
        },
{
    let p = str_to_chars(path);
    match find_lit(p.as_slice(), "PhysicalDrive") {
        Some(pos) => {
            proof {
                reveal_strlit("PhysicalDrive");
            }
            let pl = p.len();
            assert(pos + 13 <= pl);
            let d = leading_digits_from(p.as_slice(), pos + 13);
            if d.len() > 0 { Some(chars_to_string(d.as_slice())) } else { None }
        },
        None => None,
    }
}

pub open spec fn is_ascii_alpha(c: char) -> bool {
    ('a' <= c && c <= 'z') || ('A' <= c && c <= 'Z')
}

/// A path's drive letter: its first character, when an ASCII letter
/// followed by `:`.
pub open spec fn spec_drive_letter(path: Seq<char>) -> Option<char> {
    if path.len() >= 2 && is_ascii_alpha(path[0]) && path[1] == ':' { Some(path[0]) } else { None }
}

/// The drive letter of a Windows path, if it starts with one.
pub fn drive_letter(path: &str) -> (r: Option<char>)
    ensures
        r == spec_drive_letter(path@),
{
    let p = str_to_chars(path);
    if p.len() >= 2 && (('a' <= p[0] && p[0] <= 'z') || ('A' <= p[0] && p[0] <= 'Z')) && p[1] == ':' {
        Some(p[0])
    } else {
        None
    }
}

/// A disk number as a command reported it: the output trimmed, when not
/// empty.
pub fn reported_disk_number(output: &str) -> (r: Option<String>)
    ensures
        match r {
            Some(n) => n@ == trim(output@) && n@.len() > 0,
            None => trim(output@).len() == 0,
        },
{
    let t = trim_chars(str_to_chars(output).as_slice());
    if t.len() == 0 { None } else { Some(chars_to_string(t.as_slice())) }
}

/// The value of a `diskutil info` line `Key: value`: the text between
/// its first and second colon, trimmed.
pub open spec fn info_value(line: Seq<char>) -> Seq<char> {
    trim(split_at_char(line, ':')[1])
}

/// The `Part of Whole` value and the device node (`Device Node`, or the
/// first `Device Identifier` while none is known) in `diskutil info`
/// lines, each line trimmed; a later line naming the same field wins.
pub open spec fn info_fields(lines: Seq<Seq<char>>) -> (Option<Seq<char>>, Option<Seq<char>>)
    decreases lines.len(),
{
    if lines.len() == 0 {
        (None, None)
    } else {
        let (whole, node) = info_fields(lines.drop_last());
        let l = trim(lines.last());
        if starts_with_chars(l, "Part of Whole:"@) {
            (Some(info_value(l)), node)
        } else if starts_with_chars(l, "Device Node:"@) {
            (whole, Some(info_value(l)))
        } else if starts_with_chars(l, "Device Identifier:"@) && node is None {
            (whole, Some(info_value(l)))
        } else {
            (whole, node)
        }
    }
}

/// `disk` followed by the digits right after the first `disk` in `s`,
/// when there is at least one.
pub open spec fn disk_name_in(s: Seq<char>) -> Option<Seq<char>> {
    match find_chars_from(s, "disk"@, 0) {
        Some(pos) => {
            let d = leading_digits(s.subrange(pos + 4, s.len() as int));
            if d.len() > 0 { Some("disk"@ + d) } else { None }
        },
        None => None,
    }
}

/// The whole disk a macOS path lies on, from its `diskutil info` text:
/// the `Part of Whole` value, else the disk its device node names, else
/// the disk the path itself names.
pub open spec fn spec_whole_disk(info: Seq<char>, path: Seq<char>) -> Option<Seq<char>> {
    let (whole, node) = info_fields(split_lines(info));
    match whole {
        Some(w) => Some(w),
        None => match node {
            Some(n) if disk_name_in(n) is Some => disk_name_in(n),
            _ => disk_name_in(path),
        },
    }
}

fn disk_name_in_exec(s: &Vec<char>) -> (r: Option<String>)
    ensures
        match r {
            Some(n) => disk_name_in(s@) == Some(n@),
            None => disk_name_in(s@) is None,
        },
{
    match find_lit(s.as_slice(), "disk") {
        Some(pos) => {
            proof {
                reveal_strlit("disk");
            }
            let sl = s.len();
            assert(pos + 4 <= sl);
            let d = leading_digits_from(s.as_slice(), pos + 4);
            if d.len() > 0 {
                let mut n = owned("disk");
                let t = chars_to_string(d.as_slice());
                n.append(t.as_str());
                Some(n)
            } else {
                None
            }
        },
        None => None,
    }
}

fn info_value_exec(l: &Vec<char>) -> (r: Vec<char>)
    requires
        split_at_char(l@, ':').len() >= 2,
    ensures
        r@ == info_value(l@),
{
    let parts = split_chars(l.as_slice(), ':');
    proof {
        assert(parts@.map_values(|w: Vec<char>| w@).len() == parts@.len());
        assert(parts@.map_values(|w: Vec<char>| w@)[1] == parts@[1]@);
    }
    trim_chars(parts[1].as_slice())
}

/// A line that starts with a key ending in `:` splits into at least two
/// parts at `:`.
proof fn lemma_key_line_splits(l: Seq<char>, key: Seq<char>)
    requires
        starts_with_chars(l, key),
        key.len() > 0,
        key.last() == ':',
    ensures
        split_at_char(l, ':').len() >= 2,
    decreases l.len(),
{
    if l.len() > key.len() {
        assert(l.drop_last().subrange(0, key.len() as int) =~= l.subrange(0, key.len() as int));
        lemma_key_line_splits(l.drop_last(), key);
        lemma_split_len_grows(l);
    } else {
        assert(l.last() == ':') by {
            assert(l == l.subrange(0, key.len() as int));
        }
        lemma_split_len_grows(l);
        lemma_split_len_pos(l.drop_last());
    }
}

proof fn lemma_split_len_pos(s: Seq<char>)
    ensures
        split_at_char(s, ':').len() >= 1,
    decreases s.len(),
{
    if s.len() > 0 {
        lemma_split_len_pos(s.drop_last());
    }
}

proof fn lemma_split_len_grows(s: Seq<char>)
    requires
        s.len() > 0,
    ensures
        split_at_char(s, ':').len() >= split_at_char(s.drop_last(), ':').len(),
        s.last() == ':' ==> split_at_char(s, ':').len() == split_at_char(s.drop_last(), ':').len() + 1,
{
    lemma_split_len_pos(s.drop_last());
}

/// The whole disk a macOS path lies on (see `spec_whole_disk`), from the
/// text `diskutil info` printed for it.
pub fn whole_disk(info: &str, path: &str) -> (r: Option<String>)
    ensures
        match r {
            Some(n) => spec_whole_disk(info@, path@) == Some(n@),
            None => spec_whole_disk(info@, path@) is None,
        },
{
    let chars = str_to_chars(info);
    let lines = lines_chars(chars.as_slice());
    let ghost ls = split_lines(info@);
    let mut whole: Option<Vec<char>> = None;
    let mut node: Option<Vec<char>> = None;
    let mut k: usize = 0;
    proof {
        reveal_strlit("Part of Whole:");
        reveal_strlit("Device Node:");
        reveal_strlit("Device Identifier:");
    }
    while k < lines.len()
        invariant
            k <= lines@.len(),
            ls == lines@.map_values(|l: Vec<char>| l@),
            "Part of Whole:"@.len() > 0 && "Part of Whole:"@.last() == ':',
            "Device Node:"@.len() > 0 && "Device Node:"@.last() == ':',
            "Device Identifier:"@.len() > 0 && "Device Identifier:"@.last() == ':',
            (match whole { Some(w) => Some(w@), None => None::<Seq<char>> }, match node { Some(n) => Some(n@), None => None::<Seq<char>> })
                == info_fields(ls.subrange(0, k as int)),
        decreases lines@.len() - k,
    {
        assert(ls.subrange(0, k + 1).drop_last() =~= ls.subrange(0, k as int));
        assert(ls.subrange(0, k + 1).last() == lines@[k as int]@);
        let l = trim_chars(lines[k].as_slice());
        if chars_starts_with(&l, "Part of Whole:") {
            proof {
                lemma_key_line_splits(l@, "Part of Whole:"@);
            }
            whole = Some(info_value_exec(&l));
        } else if chars_starts_with(&l, "Device Node:") {
            proof {
                lemma_key_line_splits(l@, "Device Node:"@);
            }
            node = Some(info_value_exec(&l));
        } else if chars_starts_with(&l, "Device Identifier:") && node.is_none() {
            proof {
                lemma_key_line_splits(l@, "Device Identifier:"@);
            }
            node = Some(info_value_exec(&l));
        }
        k = k + 1;
    }
    assert(ls.subrange(0, k as int) =~= ls);
    match whole {
        Some(w) => return Some(chars_to_string(w.as_slice())),
        None => {},
    }
    match &node {
        Some(n) => {
            match disk_name_in_exec(n) {
                Some(d) => return Some(d),
                None => {},
            }
        },
        None => {},
    }
    let p = str_to_chars(path);
    disk_name_in_exec(&p)
}

/// Two disk names denote the same disk: equal and not empty.
pub fn same_disk_name(a: &[u8], b: &[u8]) -> (r: bool)
    ensures
        r == (a@ == b@ && a@.len() > 0),
{
    a.len() > 0 && crate::bytes::eq_bytes(a, b)
}

/// An optional text argument, by its characters.
pub open spec fn opt_text(o: Option<&str>) -> Option<Seq<char>> {
    match o {
        Some(s) => Some(s@),
        None => None,
    }
}

/// Where the engine keeps its data: an explicit override first, then the
/// per-user directory of the platform (`{LOCALAPPDATA}\Revenant` on
/// Windows, `{HOME}/Library/Application Support/Revenant` on macOS,
/// `{HOME}/.local/share/revenant` elsewhere), then `./revenant-data` when
/// the platform's variable is missing.
pub open spec fn spec_data_dir(
    explicit: Option<Seq<char>>,
    os: Seq<char>,
    local_appdata: Option<Seq<char>>,
    home: Option<Seq<char>>,
) -> Seq<char> {
    match explicit {
        Some(d) => d,
        None => if os == "windows"@ {
            match local_appdata {
                Some(l) => l + "\\Revenant"@,
                None => "./revenant-data"@,
            }
        } else if os == "macos"@ {
            match home {
                Some(h) => h + "/Library/Application Support/Revenant"@,
                None => "./revenant-data"@,
            }
        } else {
            match home {
                Some(h) => h + "/.local/share/revenant"@,
                None => "./revenant-data"@,
            }
        },
    }
}

/// The data directory for the given override, operating system name (as
/// `std::env::consts::OS` gives it) and environment values.
pub fn data_dir_for(explicit: Option<&str>, os: &str, local_appdata: Option<&str>, home: Option<&str>) -> (r: String)
    ensures
        r@ == spec_data_dir(opt_text(explicit), os@, opt_text(local_appdata), opt_text(home)),
{
    if let Some(d) = explicit {
        return owned(d);
    }
    let (base, suffix) = if str_eq(os, "windows") {
        (local_appdata, "\\Revenant")
    } else if str_eq(os, "macos") {
        (home, "/Library/Application Support/Revenant")
    } else {
        (home, "/.local/share/revenant")
    };
    match base {
        Some(b) => {
            let mut r = owned(b);
            r.append(suffix);
            r
        },
        None => owned("./revenant-data"),
    }
}

} // verus!
