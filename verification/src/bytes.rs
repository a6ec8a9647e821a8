//! Byte-level helpers shared by the format parsers: little/big-endian
//! integer decoding, sub-sequence search and literal comparison.

use vstd::prelude::*;

verus! {

/// Little-endian value of the two bytes at `i`.
pub open spec fn le16(b: Seq<u8>, i: int) -> nat {
    (b[i] + b[i + 1] * 256) as nat
}

/// Little-endian value of the four bytes at `i`.
pub open spec fn le32(b: Seq<u8>, i: int) -> nat {
    (le16(b, i) + le16(b, i + 2) * 65536) as nat
}

/// Little-endian value of the eight bytes at `i`.
pub open spec fn le64(b: Seq<u8>, i: int) -> nat {
    (le32(b, i) + le32(b, i + 4) * 0x1_0000_0000) as nat
}

/// Big-endian value of the two bytes at `i`.
pub open spec fn be16(b: Seq<u8>, i: int) -> nat {
    (b[i] * 256 + b[i + 1]) as nat
}

/// Big-endian value of the four bytes at `i`.
pub open spec fn be32(b: Seq<u8>, i: int) -> nat {
    (be16(b, i) * 65536 + be16(b, i + 2)) as nat
}

/// Big-endian value of the eight bytes at `i`.
pub open spec fn be64(b: Seq<u8>, i: int) -> nat {
    (be32(b, i) * 0x1_0000_0000 + be32(b, i + 4)) as nat
}

/// The little-endian `u16` at `i`.
pub fn read_le16(b: &[u8], i: usize) -> (r: u16)
    requires
        i + 2 <= b.len(),
    ensures
        r == le16(b@, i as int),
{
    b[i] as u16 + (b[i + 1] as u16) * 256
}

/// The little-endian `u32` at `i`.
pub fn read_le32(b: &[u8], i: usize) -> (r: u32)
    requires
        i + 4 <= b.len(),
    ensures
        r == le32(b@, i as int),
{
    let lo = read_le16(b, i) as u32;
    let hi = read_le16(b, i + 2) as u32;
    lo + hi * 65536
}

/// The little-endian `u64` at `i`.
pub fn read_le64(b: &[u8], i: usize) -> (r: u64)
    requires
        i + 8 <= b.len(),
    ensures
        r == le64(b@, i as int),
{
    let lo = read_le32(b, i) as u64;
    let hi = read_le32(b, i + 4) as u64;
    lo + hi * 0x1_0000_0000
}

/// The big-endian `u16` at `i`.
pub fn read_be16(b: &[u8], i: usize) -> (r: u16)
    requires
        i + 2 <= b.len(),
    ensures
        r == be16(b@, i as int),
{
    (b[i] as u16) * 256 + b[i + 1] as u16
}

/// The big-endian `u32` at `i`.
pub fn read_be32(b: &[u8], i: usize) -> (r: u32)
    requires
        i + 4 <= b.len(),
    ensures
        r == be32(b@, i as int),
{
    let hi = read_be16(b, i) as u32;
    let lo = read_be16(b, i + 2) as u32;
    hi * 65536 + lo
}

/// The big-endian `u64` at `i`.
pub fn read_be64(b: &[u8], i: usize) -> (r: u64)
    requires
        i + 8 <= b.len(),
    ensures
        r == be64(b@, i as int),
{
    let hi = read_be32(b, i) as u64;
    let lo = read_be32(b, i + 4) as u64;
    hi * 0x1_0000_0000 + lo
}

/// `needle` occurs in `hay` starting at position `i`.
pub open spec fn occurs_at(hay: Seq<u8>, needle: Seq<u8>, i: int) -> bool {
    0 <= i && i + needle.len() <= hay.len() && hay.subrange(i, i + needle.len()) == needle
}

/// The first position at or after `k` where `needle` occurs in `hay`.
pub open spec fn first_occurrence_from(hay: Seq<u8>, needle: Seq<u8>, k: int) -> Option<int>
    decreases hay.len() + 1 - k,
{
    if k < 0 || k + needle.len() > hay.len() {
        None
    } else if hay.subrange(k, k + needle.len()) == needle {
        Some(k)
    } else {
        first_occurrence_from(hay, needle, k + 1)
    }
}

/// The position of the first occurrence of `needle` in `hay`.
pub open spec fn first_occurrence(hay: Seq<u8>, needle: Seq<u8>) -> Option<int> {
    first_occurrence_from(hay, needle, 0)
}

/// A found occurrence lies inside `hay`, at or after `k`, and is a real one.
pub proof fn lemma_first_occurrence_from(hay: Seq<u8>, needle: Seq<u8>, k: int)
    ensures
        first_occurrence_from(hay, needle, k) matches Some(i) ==> k <= i && occurs_at(hay, needle, i),
    decreases hay.len() + 1 - k,
{
    if k >= 0 && k + needle.len() <= hay.len() && hay.subrange(k, k + needle.len()) != needle {
        lemma_first_occurrence_from(hay, needle, k + 1);
    }
}

/// `hay` holds `needle` somewhere.
pub open spec fn contains_seq(hay: Seq<u8>, needle: Seq<u8>) -> bool {
    first_occurrence(hay, needle) is Some
}

/// `hay` begins with `prefix`.
pub open spec fn has_prefix(hay: Seq<u8>, prefix: Seq<u8>) -> bool {
    prefix.len() <= hay.len() && hay.subrange(0, prefix.len() as int) == prefix
}

/// Whether `needle` occurs in `hay` at position `k`.
pub fn matches_at(hay: &[u8], k: usize, needle: &[u8]) -> (r: bool)
    ensures
        r == (k + needle@.len() <= hay@.len() && hay@.subrange(k as int, k + needle@.len())
            == needle@),
{
    if k > hay.len() || needle.len() > hay.len() - k {
        return false;
    }
    let mut j: usize = 0;
    while j < needle.len()
        invariant
            k + needle.len() <= hay.len(),
            j <= needle@.len(),
            forall|t: int| 0 <= t < j ==> hay@[k + t] == needle@[t],
        decreases needle@.len() - j,
    {
        if hay[k + j] != needle[j] {
            assert(hay@.subrange(k as int, k + needle@.len())[j as int] != needle@[j as int]);
            return false;
        }
        j = j + 1;
    }
    assert(hay@.subrange(k as int, k + needle@.len()) =~= needle@);
    true
}

/// Whether `hay` begins with `prefix` (`<[u8]>::starts_with`).
pub fn starts_with(hay: &[u8], prefix: &[u8]) -> (r: bool)
    ensures
        r == has_prefix(hay@, prefix@),
{
    matches_at(hay, 0, prefix)
}

/// First occurrence of a non-empty `needle` in `hay`
/// (`hay.windows(needle.len()).position(|w| w == needle)`).
pub fn find(hay: &[u8], needle: &[u8]) -> (r: Option<usize>)
    requires
        needle@.len() > 0,
    ensures
        match r {
            Some(i) => first_occurrence(hay@, needle@) == Some(i as int) && occurs_at(hay@, needle@, i as int),
            None => first_occurrence(hay@, needle@) is None,
        },
{
    proof {
        lemma_first_occurrence_from(hay@, needle@, 0);
    }
    if needle.len() > hay.len() {
        return None;
    }
    let last = hay.len() - needle.len();
    let mut k: usize = 0;
    while k <= last
        invariant
            last == hay@.len() - needle@.len(),
            needle@.len() <= hay@.len(),
            first_occurrence(hay@, needle@) == first_occurrence_from(hay@, needle@, k as int),
        decreases last + 1 - k,
    {
        if matches_at(hay, k, needle) {
            return Some(k);
        }
        if k == last {
            assert(first_occurrence_from(hay@, needle@, k + 1) is None);
            return None;
        }
        k = k + 1;
    }
    None
}

/// Byte-string equality.
pub fn eq_bytes(a: &[u8], b: &[u8]) -> (r: bool)
    ensures
        r == (a@ == b@),
{
    if a.len() != b.len() {
        return false;
    }
    let r = matches_at(a, 0, b);
    assert(a@.subrange(0, b@.len() as int) =~= a@);
    r
}

/// Whether the bytes at `k` equal the literal `lit`.
pub fn eq_at(hay: &[u8], k: usize, lit: &[u8]) -> (r: bool)
    ensures
        r == (k + lit@.len() <= hay@.len() && hay@.subrange(k as int, k + lit@.len()) == lit@),
{
    matches_at(hay, k, lit)
}

/// 256 to the power `n`.
pub open spec fn pow256(n: nat) -> nat
    decreases n,
{
    if n == 0 {
        1
    } else {
        256 * pow256((n - 1) as nat)
    }
}

/// Little-endian value of the `n` bytes at `p`.
pub open spec fn le_n(b: Seq<u8>, p: int, n: nat) -> nat
    decreases n,
{
    if n == 0 {
        0
    } else {
        (b[p] + 256 * le_n(b, p + 1, (n - 1) as nat)) as nat
    }
}

pub proof fn lemma_le_n_bound(b: Seq<u8>, p: int, n: nat)
    ensures
        le_n(b, p, n) < pow256(n),
    decreases n,
{
    if n > 0 {
        lemma_le_n_bound(b, p + 1, (n - 1) as nat);
    }
}

pub proof fn lemma_pow256_monotonic(a: nat, b: nat)
    requires
        a <= b,
    ensures
        pow256(a) <= pow256(b),
    decreases b,
{
    if a < b {
        lemma_pow256_monotonic(a, (b - 1) as nat);
    }
}

pub proof fn lemma_pow256_8()
    ensures
        pow256(7) == 0x100_0000_0000_0000,
        pow256(8) == 0x1_0000_0000_0000_0000,
{
    reveal_with_fuel(pow256, 9);
}

/// Little-endian value of the `n <= 8` bytes at `p`.
pub fn read_le_n(b: &[u8], p: usize, n: usize) -> (r: u64)
    requires
        n <= 8,
        p + n <= b.len(),
    ensures
        r == le_n(b@, p as int, n as nat),
{
    let mut acc: u64 = 0;
    let mut k: usize = n;
    proof {
        lemma_pow256_8();
    }
    while k > 0
        invariant
            k <= n <= 8,
            p + n <= b.len(),
            acc == le_n(b@, p + k, (n - k) as nat),
            pow256(8) == 0x1_0000_0000_0000_0000,
        decreases k,
    {
        proof {
            lemma_le_n_bound(b@, p + k, (n - k) as nat);
            lemma_pow256_monotonic((n - k) as nat, 7);
            lemma_pow256_8();
        }
        acc = b[p + k - 1] as u64 + 256 * acc;
        k = k - 1;
    }
    acc
}

pub proof fn lemma_le_n_top(b: Seq<u8>, p: int, n: nat)
    ensures
        le_n(b, p, n + 1) == le_n(b, p, n) + pow256(n) * b[p + n],
    decreases n,
{
    if n > 0 {
        lemma_le_n_top(b, p + 1, (n - 1) as nat);
        let a = le_n(b, p + 1, (n - 1) as nat);
        let q = pow256((n - 1) as nat);
        let x = b[p + n] as int;
        assert(le_n(b, p + 1, n) == a + q * x);
        assert(le_n(b, p, n + 1) == b[p] + 256 * le_n(b, p + 1, n));
        assert(le_n(b, p, n) == b[p] + 256 * a);
        assert(pow256(n) == 256 * q);
        let y = b[p] as int;
        let l1 = le_n(b, p, n + 1) as int;
        let l0 = le_n(b, p, n) as int;
        let pn = pow256(n) as int;
        assert(l1 == l0 + pn * x) by (nonlinear_arith)
            requires
                l1 == y + 256 * (a + q * x),
                l0 == y + 256 * a,
                pn == 256 * q,
        ;
        assert(le_n(b, p, n + 1) == le_n(b, p, n) + pow256(n) * b[p + n]);
    } else {
        assert(pow256(0) == 1);
        assert(le_n(b, p + 1, 0) == 0);
        assert(le_n(b, p, 1) == b[p] + 256 * le_n(b, p + 1, 0));
        assert(le_n(b, p, 0) == 0);
        assert(le_n(b, p, n + 1) == le_n(b, p, n) + pow256(n) * b[p + n]);
    }
}

/// `256^n` for `n <= 7`.
pub fn pow256_u64(n: usize) -> (r: u64)
    requires
        n <= 7,
    ensures
        r == pow256(n as nat),
{
    let mut r: u64 = 1;
    let mut i: usize = 0;
    while i < n
        invariant
            i <= n <= 7,
            r == pow256(i as nat),
        decreases n - i,
    {
        proof {
            lemma_pow256_monotonic(i as nat, 6);
            lemma_pow256_8();
            reveal_with_fuel(pow256, 8);
        }
        r = r * 256;
        i = i + 1;
    }
    r
}

/// `a * b`, saturating at `u64::MAX`.
pub open spec fn sat_mul(a: u64, b: u64) -> u64 {
    if a * b > u64::MAX {
        u64::MAX
    } else {
        (a * b) as u64
    }
}

/// `u64::saturating_mul`.
pub fn saturating_mul(a: u64, b: u64) -> (r: u64)
    ensures
        r == sat_mul(a, b),
{
    match a.checked_mul(b) {
        Some(v) => v,
        None => u64::MAX,
    }
}

} // verus!
