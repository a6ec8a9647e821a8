//! Classifying a region's data state from the signatures of encrypted and
//! password-protected containers.

use vstd::prelude::*;
use crate::bytes::{contains_seq, find, has_prefix, le16, read_le16, starts_with};

verus! {

/// What can be said of a region's data.
#[derive(Clone, Copy, PartialEq, Eq, Structural, Debug)]
pub enum DataState {
    Recoverable,
    PartiallyRecoverable,
    Encrypted,
    PasswordProtected,
    Unsupported,
    Overwritten,
    Corrupted,
    Unknown,
}

pub open spec fn bitlocker_sig() -> Seq<u8> {
    seq![0x2Du8, 0x46, 0x56, 0x45, 0x2D, 0x46, 0x53, 0x2D]
}

pub open spec fn luks_sig() -> Seq<u8> {
    seq![0x4Cu8, 0x55, 0x4B, 0x53, 0xBA, 0xBE]
}

pub open spec fn zip_local_sig() -> Seq<u8> {
    seq![0x50u8, 0x4B, 0x03, 0x04]
}

pub open spec fn pdf_sig() -> Seq<u8> {
    seq![0x25u8, 0x50, 0x44, 0x46, 0x2D]
}

pub open spec fn pdf_encrypt() -> Seq<u8> {
    seq![0x2Fu8, 0x45, 0x6E, 0x63, 0x72, 0x79, 0x70, 0x74]
}

/// The state of a region: BitLocker (`-FVE-FS-` in the first sector) or
/// LUKS magic means encrypted; a ZIP local header with the encryption flag,
/// or a PDF with an `/Encrypt` reference, means password-protected; with no
/// such signature, a sample of at least 4096 bytes whose first 4096 bytes
/// look random (`high_entropy_sample`: entropy above 7.85 bits per byte) is
/// unverified encrypted-or-compressed data (`Unsupported`); anything else is
/// recoverable.
pub open spec fn spec_classify(b: Seq<u8>, high_entropy_sample: bool) -> DataState {
    if b.len() >= 512 && contains_seq(b.subrange(0, 512), bitlocker_sig()) {
        DataState::Encrypted
    } else if b.len() >= 6 && has_prefix(b, luks_sig()) {
        DataState::Encrypted
    } else if b.len() >= 8 && has_prefix(b, zip_local_sig()) && le16(b, 6) % 2 == 1 {
        DataState::PasswordProtected
    } else if has_prefix(b, pdf_sig()) && contains_seq(b, pdf_encrypt()) {
        DataState::PasswordProtected
    } else if b.len() >= 4096 && high_entropy_sample {
        DataState::Unsupported
    } else {
        DataState::Recoverable
    }
}

/// Classifies a region (see `spec_classify`); `high_entropy_sample` is
/// whether the Shannon entropy of its first 4096 bytes exceeds 7.85 bits
/// per byte.
pub fn classify_region(bytes: &[u8], high_entropy_sample: bool) -> (r: DataState)
    ensures
        r == spec_classify(bytes@, high_entropy_sample),
{
    if bytes.len() >= 512 && find(&bytes[0..512], &[0x2Du8, 0x46, 0x56, 0x45, 0x2D, 0x46, 0x53, 0x2D]).is_some() {
        return DataState::Encrypted;
    }
    if bytes.len() >= 6 && starts_with(bytes, &[0x4Cu8, 0x55, 0x4B, 0x53, 0xBA, 0xBE]) {
        return DataState::Encrypted;
    }
    if bytes.len() >= 8 && starts_with(bytes, &[0x50u8, 0x4B, 0x03, 0x04]) {
        let flags = read_le16(bytes, 6);
        if flags % 2 == 1 {
            return DataState::PasswordProtected;
        }
    }
    if starts_with(bytes, &[0x25u8, 0x50, 0x44, 0x46, 0x2D])
        && find(bytes, &[0x2Fu8, 0x45, 0x6E, 0x63, 0x72, 0x79, 0x70, 0x74]).is_some() {
        return DataState::PasswordProtected;
    }
    if bytes.len() >= 4096 && high_entropy_sample {
        return DataState::Unsupported;
    }
    DataState::Recoverable
}

/// The variant's name (`format!("{:?}", s)`).
pub open spec fn spec_state_name(s: DataState) -> Seq<char> {
    match s {
        DataState::Recoverable => "Recoverable"@,
        DataState::PartiallyRecoverable => "PartiallyRecoverable"@,
        DataState::Encrypted => "Encrypted"@,
        DataState::PasswordProtected => "PasswordProtected"@,
        DataState::Unsupported => "Unsupported"@,
        DataState::Overwritten => "Overwritten"@,
        DataState::Corrupted => "Corrupted"@,
        DataState::Unknown => "Unknown"@,
    }
}

/// The name of a data state.
pub fn state_name(s: DataState) -> (r: String)
    ensures
        r@ == spec_state_name(s),
{
    let t = match s {
        DataState::Recoverable => "Recoverable",
        DataState::PartiallyRecoverable => "PartiallyRecoverable",
        DataState::Encrypted => "Encrypted",
        DataState::PasswordProtected => "PasswordProtected",
        DataState::Unsupported => "Unsupported",
        DataState::Overwritten => "Overwritten",
        DataState::Corrupted => "Corrupted",
        DataState::Unknown => "Unknown",
    };
    crate::text::owned(t)
}

} // verus!
