//! Device descriptions and the per-device analysis report.

use vstd::prelude::*;
use crate::text::{
    chars_to_string, lines_chars, owned, parse_u64, parse_u64_chars, split_lines, str_eq, str_to_chars,
    strip_suffix_all, strip_suffix_all_chars, to_uppercase, unicode_uppercase, words, words_chars,
};
use vstd::string::StringExecFns;

verus! {

/// A mounted volume offered for scanning.
pub struct Device {
    pub id: String,
    pub name: String,
    pub mount_point: String,
    pub filesystem: String,
    pub category: String,
    pub capability: String,
    pub size_bytes: u64,
    pub used_pct: u8,
}

/// How firmly a device property is established.
#[derive(Clone, Copy, PartialEq, Eq, Structural, Debug)]
pub enum StatusLevel {
    Confirmed,
    Likely,
    Possible,
    Unknown,
    Unsupported,
}

/// What is known of a device before a scan.
pub struct DeviceAnalysisReport {
    pub filesystem: String,
    pub capacity: u64,
    pub sector_size: u32,
    pub health: StatusLevel,
    pub trim: StatusLevel,
    pub encryption: StatusLevel,
    pub read_accessibility: StatusLevel,
    pub bad_sectors: StatusLevel,
}


/// Filesystems worth offering for a scan (pseudo-filesystems are not).
pub open spec fn real_fs(t: Seq<char>) -> bool {
    t == "ext4"@ || t == "ext3"@ || t == "ext2"@ || t == "xfs"@ || t == "btrfs"@ || t == "ntfs"@ || t == "vfat"@
        || t == "exfat"@ || t == "f2fs"@ || t == "apfs"@ || t == "hfsplus"@
}

pub open spec fn starts_with_chars(s: Seq<char>, p: Seq<char>) -> bool {
    p.len() <= s.len() && s.subrange(0, p.len() as int) == p
}

/// A `/proc/mounts` line naming a real filesystem that is not a loop or
/// snap package mount: its source, mount point and type.
pub open spec fn mount_entry(line: Seq<char>) -> Option<(Seq<char>, Seq<char>, Seq<char>)> {
    let p = words(line);
    if p.len() < 3 {
        None
    } else if !real_fs(p[2]) {
        None
    } else if starts_with_chars(p[0], "/dev/loop"@) || starts_with_chars(p[1], "/snap"@) {
        None
    } else {
        Some((p[0], p[1], p[2]))
    }
}

pub open spec fn mount_entries(lines: Seq<Seq<char>>) -> Seq<(Seq<char>, Seq<char>, Seq<char>)>
    decreases lines.len(),
{
    if lines.len() == 0 {
        Seq::empty()
    } else {
        let r = mount_entries(lines.drop_last());
        match mount_entry(lines.last()) {
            Some(e) => r.push(e),
            None => r,
        }
    }
}

pub(crate) fn chars_starts_with(s: &Vec<char>, lit: &str) -> (r: bool)
    ensures
        r == starts_with_chars(s@, lit@),
{
    let p = str_to_chars(lit);
    if p.len() > s.len() {
        return false;
    }
    let mut i: usize = 0;
    while i < p.len()
        invariant
            p@ == lit@,
            p@.len() <= s@.len(),
            i <= p@.len(),
            forall|j: int| 0 <= j < i ==> s@[j] == p@[j],
        decreases p@.len() - i,
    {
        if s[i] != p[i] {
            assert(s@.subrange(0, p@.len() as int)[i as int] != p@[i as int]);
            return false;
        }
        i = i + 1;
    }
    assert(s@.subrange(0, p@.len() as int) =~= p@);
    true
}

fn real_fs_exec(t: &str) -> (r: bool)
    ensures
        r == real_fs(t@),
{
    str_eq(t, "ext4") || str_eq(t, "ext3") || str_eq(t, "ext2") || str_eq(t, "xfs") || str_eq(t, "btrfs")
        || str_eq(t, "ntfs") || str_eq(t, "vfat") || str_eq(t, "exfat") || str_eq(t, "f2fs") || str_eq(t, "apfs")
        || str_eq(t, "hfsplus")
}

fn mount_entry_exec(line: &Vec<char>) -> (r: Option<(String, String, String)>)
    ensures
        match r {
            Some((a, b, c)) => mount_entry(line@) == Some((a@, b@, c@)),
            None => mount_entry(line@) is None,
        },
{
    let p = words_chars(line.as_slice());
    proof {
        assert(p@.map_values(|w: Vec<char>| w@).len() == p@.len());
    }
    if p.len() < 3 {
        return None;
    }
    proof {
        assert(p@.map_values(|w: Vec<char>| w@)[2] == p@[2]@);
        assert(p@.map_values(|w: Vec<char>| w@)[1] == p@[1]@);
        assert(p@.map_values(|w: Vec<char>| w@)[0] == p@[0]@);
    }
    let fstype = chars_to_string(p[2].as_slice());
    if !real_fs_exec(fstype.as_str()) {
        return None;
    }
    if chars_starts_with(&p[0], "/dev/loop") || chars_starts_with(&p[1], "/snap") {
        return None;
    }
    Some((chars_to_string(p[0].as_slice()), chars_to_string(p[1].as_slice()), fstype))
}

/// The mounted real filesystems listed in `/proc/mounts` text (see
/// `mount_entry`), in order.
pub fn parse_mounts(text: &str) -> (r: Vec<(String, String, String)>)
    ensures
        r@.map_values(|e: (String, String, String)| (e.0@, e.1@, e.2@)) == mount_entries(split_lines(text@)),
{
    let chars = str_to_chars(text);
    let lines = lines_chars(chars.as_slice());
    let ghost ls = split_lines(text@);
    let mut out: Vec<(String, String, String)> = Vec::new();
    let mut k: usize = 0;
    while k < lines.len()
        invariant
            k <= lines@.len(),
            ls == lines@.map_values(|l: Vec<char>| l@),
            out@.map_values(|e: (String, String, String)| (e.0@, e.1@, e.2@)) == mount_entries(ls.subrange(0, k as int)),
        decreases lines@.len() - k,
    {
        let ghost before = out@.map_values(|e: (String, String, String)| (e.0@, e.1@, e.2@));
        assert(ls.subrange(0, k + 1).drop_last() =~= ls.subrange(0, k as int));
        assert(ls.subrange(0, k + 1).last() == lines@[k as int]@);
        match mount_entry_exec(&lines[k]) {
            Some(e) => {
                out.push(e);
                assert(out@.map_values(|e: (String, String, String)| (e.0@, e.1@, e.2@)) =~= before.push(
                    mount_entry(lines@[k as int]@).unwrap(),
                ));
            },
            None => {},
        }
        k = k + 1;
    }
    assert(ls.subrange(0, k as int) =~= ls);
    out
}

pub open spec fn slash_to_underscore(s: Seq<char>) -> Seq<char> {
    s.map_values(|c: char| if c == '/' { '_' } else { c })
}

/// The device entry of a mounted filesystem: its id is the source with
/// `/` turned into `_`; the root and boot mounts are the computer's own
/// storage, anything else removable.
pub fn device_from_mount(source: &str, mount_point: &str, fstype: &str, total: u64, used_pct: u8) -> (r: Device)
    ensures
        r.id@ == slash_to_underscore(source@),
        r.name@ == mount_point@ + " ("@ + source@ + ")"@,
        r.mount_point@ == mount_point@,
        r.filesystem@ == unicode_uppercase(fstype@),
        r.category@ == (if mount_point@ == "/"@ || starts_with_chars(mount_point@, "/boot"@) {
            "computer"@
        } else {
            "removable"@
        }),
        r.capability@ == "full"@,
        r.size_bytes == total,
        r.used_pct == used_pct,
{
    let src = str_to_chars(source);
    let mut id: Vec<char> = Vec::new();
    let mut i: usize = 0;
    while i < src.len()
        invariant
            i <= src@.len(),
            id@ == slash_to_underscore(src@.subrange(0, i as int)),
        decreases src@.len() - i,
    {
        id.push(if src[i] == '/' { '_' } else { src[i] });
        i = i + 1;
        assert(id@ =~= slash_to_underscore(src@.subrange(0, i as int)));
    }
    assert(src@.subrange(0, src@.len() as int) =~= src@);
    let mut name = owned(mount_point);
    name.append(" (");
    name.append(source);
    name.append(")");
    let mp = str_to_chars(mount_point);
    let computer = str_eq(mount_point, "/") || chars_starts_with(&mp, "/boot");
    Device {
        id: chars_to_string(id.as_slice()),
        name,
        mount_point: owned(mount_point),
        filesystem: to_uppercase(fstype),
        category: owned(if computer { "computer" } else { "removable" }),
        capability: owned("full"),
        size_bytes: total,
        used_pct,
    }
}

/// `s.parse::<u8>()`.
pub open spec fn parse_u8(s: Seq<char>) -> Option<u8> {
    match parse_u64(s) {
        Some(v) => if v <= 255 { Some(v as u8) } else { None },
        None => None,
    }
}

/// The columns of the second line of `df` output (the first is the
/// header).
pub open spec fn df_columns(text: Seq<char>) -> Seq<Seq<char>> {
    let ls = split_lines(text);
    if ls.len() >= 2 { words(ls[1]) } else { Seq::empty() }
}

/// Total bytes and use percentage from `df -B1` output: the second and
/// fifth columns (the latter without `%`), zero where missing or
/// unparsable.
pub open spec fn spec_df_usage(text: Seq<char>) -> (u64, u8) {
    let c = df_columns(text);
    if c.len() >= 5 {
        (
            match parse_u64(c[1]) {
                Some(v) => v,
                None => 0,
            },
            match parse_u8(strip_suffix_all(c[4], "%"@)) {
                Some(v) => v,
                None => 0,
            },
        )
    } else {
        (0, 0)
    }
}

fn df_columns_exec(text: &str) -> (r: Vec<Vec<char>>)
    ensures
        r@.map_values(|w: Vec<char>| w@) == df_columns(text@),
{
    let chars = str_to_chars(text);
    let lines = lines_chars(chars.as_slice());
    proof {
        assert(lines@.map_values(|l: Vec<char>| l@).len() == lines@.len());
    }
    if lines.len() >= 2 {
        proof {
            assert(lines@.map_values(|l: Vec<char>| l@)[1] == lines@[1]@);
        }
        words_chars(lines[1].as_slice())
    } else {
        let v: Vec<Vec<char>> = Vec::new();
        assert(v@.map_values(|w: Vec<char>| w@) =~= Seq::<Seq<char>>::empty());
        v
    }
}

/// Total size and use percentage from `df -B1` output (see
/// `spec_df_usage`).
pub fn parse_df_usage(text: &str) -> (r: (u64, u8))
    ensures
        r == spec_df_usage(text@),
{
    let c = df_columns_exec(text);
    proof {
        assert(c@.map_values(|w: Vec<char>| w@).len() == c@.len());
    }
    if c.len() < 5 {
        return (0, 0);
    }
    proof {
        assert(c@.map_values(|w: Vec<char>| w@)[1] == c@[1]@);
        assert(c@.map_values(|w: Vec<char>| w@)[4] == c@[4]@);
    }
    let total = match parse_u64_chars(c[1].as_slice()) {
        Some(v) => v,
        None => 0,
    };
    let pc = str_to_chars("%");
    let pct_chars = strip_suffix_all_chars(c[4].as_slice(), pc.as_slice());
    let pct: u8 = match parse_u64_chars(pct_chars.as_slice()) {
        Some(v) => if v <= 255 { v as u8 } else { 0 },
        None => 0,
    };
    (total, pct)
}

/// Free bytes from `df -B1` output: the fourth column of the second line,
/// zero where missing or unparsable.
pub open spec fn spec_df_free(text: Seq<char>) -> u64 {
    let c = df_columns(text);
    if c.len() >= 4 {
        match parse_u64(c[3]) {
            Some(v) => v,
            None => 0,
        }
    } else {
        0
    }
}

/// The free bytes in `df -B1` output (see `spec_df_free`).
pub fn parse_df_free(text: &str) -> (r: u64)
    ensures
        r == spec_df_free(text@),
{
    let c = df_columns_exec(text);
    proof {
        assert(c@.map_values(|w: Vec<char>| w@).len() == c@.len());
    }
    if c.len() < 4 {
        return 0;
    }
    proof {
        assert(c@.map_values(|w: Vec<char>| w@)[3] == c@[3]@);
    }
    match parse_u64_chars(c[3].as_slice()) {
        Some(v) => v,
        None => 0,
    }
}

/// The filesystem source named by `df -P` output: the first column of the
/// second line.
pub open spec fn spec_df_source(text: Seq<char>) -> Option<Seq<char>> {
    let ls = split_lines(text);
    if ls.len() >= 2 && words(ls[1]).len() > 0 {
        Some(words(ls[1])[0])
    } else {
        None
    }
}

/// The filesystem source in `df -P` output (see `spec_df_source`).
pub fn parse_df_source(text: &str) -> (r: Option<String>)
    ensures
        match r {
            Some(s) => spec_df_source(text@) == Some(s@),
            None => spec_df_source(text@) is None,
        },
{
    let c = df_columns_exec(text);
    proof {
        assert(c@.map_values(|w: Vec<char>| w@).len() == c@.len());
    }
    if c.len() == 0 {
        return None;
    }
    proof {
        assert(c@.map_values(|w: Vec<char>| w@)[0] == c@[0]@);
    }
    Some(chars_to_string(c[0].as_slice()))
}

} // verus!
