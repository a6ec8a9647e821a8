//! Adapting worker count and I/O sizes to the machine.

use vstd::prelude::*;
use crate::text::{
    split_lines, first_word, first_word_chars, parse_u64, parse_u64_chars, str_eq, str_to_chars, strip_suffix_all,
    strip_suffix_all_chars, trim, trim_chars,
};

verus! {

/// What the machine offers.
pub struct SystemProfile {
    pub cpu_cores: usize,
    pub total_ram_mb: u64,
    pub available_ram_mb: u64,
    pub gpu_detected: bool,
    pub thermal_data_available: bool,
}

/// The parameters a recovery run uses.
pub struct AdaptiveParams {
    pub worker_count: usize,
    pub read_block_size_kb: usize,
    pub queue_depth: usize,
    pub mode: &'static str,
}

/// The mode name kept in the parameters: a known mode, or `balanced`.
pub open spec fn spec_mode_name(mode: Seq<char>) -> Seq<char> {
    if mode == "battery_saver"@ {
        "battery_saver"@
    } else if mode == "performance"@ {
        "performance"@
    } else if mode == "maximum_recovery"@ {
        "maximum_recovery"@
    } else {
        "balanced"@
    }
}

fn leak_mode_name(mode: &str) -> (r: &'static str)
    ensures
        r@ == spec_mode_name(mode@),
{
    if str_eq(mode, "battery_saver") {
        "battery_saver"
    } else if str_eq(mode, "performance") {
        "performance"
    } else if str_eq(mode, "maximum_recovery") {
        "maximum_recovery"
    } else {
        "balanced"
    }
}

pub open spec fn base_workers(cores: usize) -> int {
    if cores > 1 { cores - 1 } else { 1 }
}

/// Workers, block size (KiB) and queue depth per mode: battery saver a
/// quarter of the spare cores (at least one), 64 KiB, 4; performance every
/// spare core, 256 KiB, 16; maximum recovery twice the spare cores,
/// 512 KiB, 32; balanced the spare cores but at least two and at most one
/// more, 128 KiB, 8. Workers never exceed one per 64 MiB of available RAM
/// (at least one).
pub open spec fn spec_adapt(p: SystemProfile, mode: Seq<char>) -> (int, int, int, Seq<char>) {
    let base = base_workers(p.cpu_cores);
    let (w, block, depth) = if mode == "battery_saver"@ {
        (if base / 4 > 1 { base / 4 } else { 1 }, 64int, 4int)
    } else if mode == "performance"@ {
        (base, 256, 16)
    } else if mode == "maximum_recovery"@ {
        (base * 2, 512, 32)
    } else {
        let at_least_two = if base > 2 { base } else { 2 };
        (if at_least_two < base + 1 { at_least_two } else { base + 1 }, 128, 8)
    };
    let ram_bound = (if p.available_ram_mb / 64 > 1 { p.available_ram_mb / 64 } else { 1 }) as usize as int;
    (if w < ram_bound { w } else { ram_bound }, block, depth, spec_mode_name(mode))
}

/// Derives the run parameters from the machine profile and mode (see
/// `spec_adapt`).
pub fn adapt(profile: &SystemProfile, mode: &str) -> (r: AdaptiveParams)
    requires
        mode@ == "maximum_recovery"@ ==> base_workers(profile.cpu_cores) * 2 <= usize::MAX,
    ensures
        (r.worker_count as int, r.read_block_size_kb as int, r.queue_depth as int, r.mode@) == spec_adapt(*profile, mode@),
{
    let base: usize = if profile.cpu_cores > 1 { profile.cpu_cores - 1 } else { 1 };
    let (w, block, depth): (usize, usize, usize) = if str_eq(mode, "battery_saver") {
        (if base / 4 > 1 { base / 4 } else { 1 }, 64, 4)
    } else if str_eq(mode, "performance") {
        (base, 256, 16)
    } else if str_eq(mode, "maximum_recovery") {
        (base * 2, 512, 32)
    } else {
        let at_least_two = if base > 2 { base } else { 2 };
        (if at_least_two < base + 1 { at_least_two } else { base + 1 }, 128, 8)
    };
    let ram_bound = (if profile.available_ram_mb / 64 > 1 { profile.available_ram_mb / 64 } else { 1 }) as usize;
    AdaptiveParams {
        worker_count: if w < ram_bound { w } else { ram_bound },
        read_block_size_kb: block,
        queue_depth: depth,
        mode: leak_mode_name(mode),
    }
}

/// The number in a `/proc/meminfo` value such as `  8021312 kB`: trimmed,
/// without trailing ` kB`, first word, parsed; zero when that fails.
pub open spec fn spec_parse_kb(s: Seq<char>) -> u64 {
    match first_word(strip_suffix_all(trim(s), " kB"@)) {
        Some(w) => match parse_u64(w) {
            Some(v) => v,
            None => 0,
        },
        None => 0,
    }
}

/// The kilobyte count of a `/proc/meminfo` value (see `spec_parse_kb`).
pub fn parse_kb(s: &[char]) -> (r: u64)
    ensures
        r == spec_parse_kb(s@),
{
    let t = trim_chars(s);
    let suf = str_to_chars(" kB");
    let u = strip_suffix_all_chars(t.as_slice(), suf.as_slice());
    match first_word_chars(u.as_slice()) {
        Some(w) => match parse_u64_chars(w.as_slice()) {
            Some(v) => v,
            None => 0,
        },
        None => 0,
    }
}

/// The value of the last line starting with `key`, in kB (zero if none).
pub open spec fn meminfo_value(lines: Seq<Seq<char>>, key: Seq<char>) -> u64
    decreases lines.len(),
{
    if lines.len() == 0 {
        0
    } else {
        let l = lines.last();
        if l.len() >= key.len() && l.subrange(0, key.len() as int) == key {
            spec_parse_kb(l.subrange(key.len() as int, l.len() as int))
        } else {
            meminfo_value(lines.drop_last(), key)
        }
    }
}

fn line_value(line: &Vec<char>, key: &Vec<char>) -> (r: Option<u64>)
    ensures
        match r {
            Some(v) => line@.len() >= key@.len() && line@.subrange(0, key@.len() as int) == key@
                && v == spec_parse_kb(line@.subrange(key@.len() as int, line@.len() as int)),
            None => !(line@.len() >= key@.len() && line@.subrange(0, key@.len() as int) == key@),
        },
{
    if line.len() < key.len() {
        return None;
    }
    let mut i: usize = 0;
    while i < key.len()
        invariant
            line@.len() >= key@.len(),
            i <= key@.len(),
            forall|j: int| 0 <= j < i ==> line@[j] == key@[j],
        decreases key@.len() - i,
    {
        if line[i] != key[i] {
            assert(line@.subrange(0, key@.len() as int)[i as int] != key@[i as int]);
            return None;
        }
        i = i + 1;
    }
    assert(line@.subrange(0, key@.len() as int) =~= key@);
    let mut rest: Vec<char> = Vec::new();
    let mut k: usize = key.len();
    while k < line.len()
        invariant
            key@.len() <= k <= line@.len(),
            rest@ == line@.subrange(key@.len() as int, k as int),
        decreases line@.len() - k,
    {
        rest.push(line[k]);
        k = k + 1;
    }
    Some(parse_kb(rest.as_slice()))
}

/// Total and available memory in MiB from the text of `/proc/meminfo`:
/// the `MemTotal:` and `MemAvailable:` values divided by 1024.
pub fn meminfo_totals(content: &str) -> (r: (u64, u64))
    ensures
        r.0 == meminfo_value(split_lines(content@), "MemTotal:"@) / 1024,
        r.1 == meminfo_value(split_lines(content@), "MemAvailable:"@) / 1024,
{
    let s = str_to_chars(content);
    let kt = str_to_chars("MemTotal:");
    let ka = str_to_chars("MemAvailable:");
    let mut total: u64 = 0;
    let mut avail: u64 = 0;
    let mut line: Vec<char> = Vec::new();
    let mut i: usize = 0;
    proof {
        assert(s@.subrange(0, 0) =~= Seq::<char>::empty());
    }
    while i < s.len()
        invariant
            i <= s@.len(),
            kt@ == "MemTotal:"@,
            ka@ == "MemAvailable:"@,
            split_lines(s@.subrange(0, i as int)).last() == line@,
            split_lines(s@.subrange(0, i as int)).len() >= 1,
            total == meminfo_value(split_lines(s@.subrange(0, i as int)).drop_last(), kt@),
            avail == meminfo_value(split_lines(s@.subrange(0, i as int)).drop_last(), ka@),
        decreases s@.len() - i,
    {
        let ghost pre = split_lines(s@.subrange(0, i as int));
        assert(s@.subrange(0, i + 1).drop_last() =~= s@.subrange(0, i as int));
        if s[i] == '\n' {
            match line_value(&line, &kt) {
                Some(v) => {
                    total = v;
                },
                None => {},
            }
            match line_value(&line, &ka) {
                Some(v) => {
                    avail = v;
                },
                None => {},
            }
            line = Vec::new();
            proof {
                let nxt = split_lines(s@.subrange(0, i + 1));
                assert(nxt == pre.push(Seq::empty()));
                assert(nxt.drop_last() =~= pre);
                assert(pre.drop_last() =~= pre.subrange(0, pre.len() - 1));
            }
        } else {
            let ghost before = line@;
            line.push(s[i]);
            proof {
                let nxt = split_lines(s@.subrange(0, i + 1));
                assert(nxt == pre.update(pre.len() - 1, pre.last().push(s@[i as int])));
                assert(nxt.drop_last() =~= pre.drop_last());
            }
        }
        i = i + 1;
    }
    match line_value(&line, &kt) {
        Some(v) => {
            total = v;
        },
        None => {},
    }
    match line_value(&line, &ka) {
        Some(v) => {
            avail = v;
        },
        None => {},
    }
    proof {
        assert(s@.subrange(0, i as int) =~= s@);
    }
    (total / 1024, avail / 1024)
}

} // verus!
