//! SHA-256 digests (through the `sha2` crate) and their lower-case hex text.

use vstd::prelude::*;

verus! {

/// The SHA-256 digest of `data`, as computed by `sha2::Sha256`.
pub uninterp spec fn sha256(data: Seq<u8>) -> Seq<u8>;

/// Calls `sha2::Sha256::digest`. Trusted: the result is the digest that the
/// crate computes for exactly these bytes, and a SHA-256 digest is 32 bytes
/// long (the crate's output size `U32`).
#[verifier::external_body]
pub(crate) fn sha256_digest(data: &[u8]) -> (r: Vec<u8>)
    ensures
        r@ == sha256(data@),
        r@.len() == 32,
{
    <sha2::Sha256 as sha2::Digest>::digest(data).to_vec()
}

/// The lower-case hexadecimal digit for `v < 16`.
pub open spec fn hex_digit(v: int) -> char {
    if v < 10 {
        (('0' as int) + v) as char
    } else {
        (('a' as int) + v - 10) as char
    }
}

/// Two lower-case hex digits per byte, most significant nibble first
/// (`format!("{:x}", digest)`).
pub open spec fn hex_lower(data: Seq<u8>) -> Seq<char>
    decreases data.len(),
{
    if data.len() == 0 {
        Seq::empty()
    } else {
        seq![hex_digit((data[0] / 16) as int), hex_digit((data[0] % 16) as int)] + hex_lower(data.drop_first())
    }
}

fn hex_char(v: u8) -> (c: char)
    requires
        v < 16,
    ensures
        c == hex_digit(v as int),
{
    if v < 10 {
        ((48u8 + v) as char)
    } else {
        ((87u8 + v) as char)
    }
}

proof fn lemma_hex_lower_append(data: Seq<u8>, i: int)
    requires
        0 <= i < data.len(),
    ensures
        hex_lower(data.subrange(0, i + 1)) == hex_lower(data.subrange(0, i)) + seq![
            hex_digit((data[i] / 16) as int),
            hex_digit((data[i] % 16) as int),
        ],
    decreases i,
{
    let s = data.subrange(0, i + 1);
    if i == 0 {
        assert(s.drop_first() =~= Seq::<u8>::empty());
        assert(data.subrange(0, 0) =~= Seq::<u8>::empty());
    } else {
        let t = data.drop_first();
        lemma_hex_lower_append(t, i - 1);
        assert(s.drop_first() =~= t.subrange(0, i));
        assert(data.subrange(0, i).drop_first() =~= t.subrange(0, i - 1));
        assert(data.subrange(0, i)[0] == data[0]);
    }
}

/// Lower-case hex text of `data`.
pub fn to_hex_lower(data: &[u8]) -> (s: String)
    ensures
        s@ == hex_lower(data@),
{
    let mut out: Vec<char> = Vec::new();
    let mut i: usize = 0;
    while i < data.len()
        invariant
            i <= data@.len(),
            out@ == hex_lower(data@.subrange(0, i as int)),
        decreases data@.len() - i,
    {
        let b = data[i];
        proof {
            lemma_hex_lower_append(data@, i as int);
        }
        out.push(hex_char(b / 16));
        out.push(hex_char(b % 16));
        i = i + 1;
    }
    assert(data@.subrange(0, data@.len() as int) =~= data@);
    crate::text::chars_to_string(out.as_slice())
}

/// The running state of a `sha2::Sha256` hasher, fed piece by piece. Its
/// inside is hidden from Verus (the crate's hasher type is built from
/// outside traits that Verus does not take as bounds); `sha256_fed` names
/// what it has been fed.
#[verifier::external_body]
pub struct Sha256Stream {
    hasher: sha2::Sha256,
}

/// The bytes a hasher has been fed so far, in order.
pub uninterp spec fn sha256_fed(s: Sha256Stream) -> Seq<u8>;

/// Calls `<sha2::Sha256 as Digest>::new`. Trusted: a fresh hasher has been
/// fed nothing.
#[verifier::external_body]
fn stream_start() -> (r: Sha256Stream)
    ensures
        sha256_fed(r) == Seq::<u8>::empty(),
{
    Sha256Stream { hasher: <sha2::Sha256 as sha2::Digest>::new() }
}

/// Calls `<sha2::Sha256 as Digest>::update`. Trusted: the hasher has then
/// been fed what it had been fed before, followed by `data`.
#[verifier::external_body]
fn stream_feed(s: &mut Sha256Stream, data: &[u8])
    ensures
        sha256_fed(*final(s)) == sha256_fed(*old(s)) + data@,
{
    sha2::Digest::update(&mut s.hasher, data)
}

/// Calls `<sha2::Sha256 as Digest>::finalize`. Trusted: the result is the
/// SHA-256 digest of every byte fed, in order (the crate's `digest` is
/// exactly a fresh hasher, one `update` and `finalize`), 32 bytes long.
#[verifier::external_body]
fn stream_finish(s: Sha256Stream) -> (r: Vec<u8>)
    ensures
        r@ == sha256(sha256_fed(s)),
        r@.len() == 32,
{
    sha2::Digest::finalize(s.hasher).to_vec()
}

impl Sha256Stream {
    /// The bytes fed so far.
    pub open spec fn fed(&self) -> Seq<u8> {
        sha256_fed(*self)
    }

    /// A hasher that has been fed nothing.
    pub fn new() -> (r: Self)
        ensures
            r.fed() == Seq::<u8>::empty(),
    {
        stream_start()
    }

    /// Feeds `data` after what was fed before.
    pub fn update(&mut self, data: &[u8])
        ensures
            final(self).fed() == old(self).fed() + data@,
    {
        stream_feed(self, data)
    }

    /// Lower-case hex text of the digest of everything fed.
    pub fn finish_hex(self) -> (s: String)
        ensures
            s@ == hex_lower(sha256(self.fed())),
    {
        let d = stream_finish(self);
        to_hex_lower(d.as_slice())
    }
}

/// Lower-case hex text of the SHA-256 digest of `data`.
pub fn sha256_hex(data: &[u8]) -> (s: String)
    ensures
        s@ == hex_lower(sha256(data@)),
{
    let d = sha256_digest(data);
    to_hex_lower(d.as_slice())
}

} // verus!
