//! What TRIM/discard support means for recovery, from the kernel's block
//! queue attributes.

use vstd::prelude::*;
use crate::text::{decimal, owned, parse_u64, parse_u64_chars, str_to_chars, trim, trim_chars};
use vstd::string::StringExecFns;

verus! {

/// The TRIM situation of a block device.
pub struct TrimStatus {
    pub device_name: String,
    pub rotational: bool,
    pub discard_supported: bool,
    pub discard_granularity_bytes: u64,
    pub expected_recovery_potential: String,
    pub warning: Option<String>,
}

pub open spec fn opt_text(o: Option<String>) -> Option<Seq<char>> {
    match o {
        Some(s) => Some(s@),
        None => None,
    }
}

pub open spec fn flash_warning(g: u64) -> Seq<char> {
    "This device supports TRIM/discard (granularity "@ + decimal(g as nat) + " bytes). On flash-based storage, TRIM tells the controller to physically erase deleted data's underlying cells almost immediately \u{2014} not just remove the filesystem's pointer to it. Deep and Advanced Recovery scans will still run, but recovery potential for anything deleted more than a few minutes ago is low, and this is a hardware-level limitation no scan mode can work around."@
}

pub open spec fn virtual_warning() -> Seq<char> {
    "This device reports as rotational but also supports discard/TRIM \u{2014} likely virtualized or thin-provisioned storage. Discard behavior on the actual backing media is unknown."@
}

/// The status read from `queue/rotational` and `queue/discard_granularity`:
/// rotational when the first reads `1`; discard supported when the second
/// parses to a non-zero granularity (an unparsable one counts as zero).
/// Flash with discard has low recovery potential, a rotational device with
/// discard moderate, anything else normal; the first two carry a warning.
pub open spec fn trim_status_ok(t: TrimStatus, name: Seq<char>, rotational_raw: Seq<char>, discard_raw: Seq<char>) -> bool {
    let rotational = trim(rotational_raw) == "1"@;
    let g: u64 = match parse_u64(trim(discard_raw)) {
        Some(v) => v,
        None => 0,
    };
    let supported = g > 0;
    &&& t.device_name@ == name
    &&& t.rotational == rotational
    &&& t.discard_granularity_bytes == g
    &&& t.discard_supported == supported
    &&& if supported && !rotational {
        t.expected_recovery_potential@ == "Low"@ && opt_text(t.warning) == Some(flash_warning(g))
    } else if supported && rotational {
        t.expected_recovery_potential@ == "Moderate"@ && opt_text(t.warning) == Some(virtual_warning())
    } else {
        t.expected_recovery_potential@ == "Normal"@ && t.warning is None
    }
}

/// Builds the TRIM status of `device_name` from the contents of its
/// `rotational` and `discard_granularity` queue attributes.
pub fn trim_status_from(device_name: &str, rotational_raw: &str, discard_raw: &str) -> (r: TrimStatus)
    ensures
        trim_status_ok(r, device_name@, rotational_raw@, discard_raw@),
{
    let rot = trim_chars(str_to_chars(rotational_raw).as_slice());
    let rotational = rot.len() == 1 && rot[0] == '1';
    proof {
        reveal_strlit("1");
        if rotational {
            assert(rot@ =~= "1"@);
        }
    }
    let disc = trim_chars(str_to_chars(discard_raw).as_slice());
    let g: u64 = match parse_u64_chars(disc.as_slice()) {
        Some(v) => v,
        None => 0,
    };
    let supported = g > 0;
    let (potential, warning) = if supported && !rotational {
        let mut w = owned("This device supports TRIM/discard (granularity ");
        let num = crate::text::u64_to_decimal(g);
        w.append(num.as_str());
        w.append(" bytes). On flash-based storage, TRIM tells the controller to physically erase deleted data's underlying cells almost immediately \u{2014} not just remove the filesystem's pointer to it. Deep and Advanced Recovery scans will still run, but recovery potential for anything deleted more than a few minutes ago is low, and this is a hardware-level limitation no scan mode can work around.");
        (owned("Low"), Some(w))
    } else if supported && rotational {
        (owned("Moderate"), Some(owned("This device reports as rotational but also supports discard/TRIM \u{2014} likely virtualized or thin-provisioned storage. Discard behavior on the actual backing media is unknown.")))
    } else {
        (owned("Normal"), None)
    };
    TrimStatus {
        device_name: owned(device_name),
        rotational,
        discard_supported: supported,
        discard_granularity_bytes: g,
        expected_recovery_potential: potential,
        warning,
    }
}

} // verus!
