//! Signature definitions as versioned data: header and footer bytes are
//! hex text, decoded once when a package is loaded.

use vstd::prelude::*;
use vstd::string::StringSliceAdditionalSpecFns;
use vstd::utf8::{encode_utf8, is_ascii_chars, is_ascii_chars_encode_utf8};
use crate::digest::{hex_digit, hex_lower};

verus! {

/// One signature definition, as stored in a package.
pub struct SignatureDef {
    pub signature_id: String,
    pub file_type: String,
    pub ext: String,
    pub header_hex: String,
    pub footer_hex: Option<String>,
    pub max_size: usize,
    pub version: u32,
    pub offset_rule: Option<String>,
    pub parser: Option<String>,
    pub container: Option<String>,
    pub fragmentation_strategy: Option<String>,
}

/// A versioned set of signature definitions.
pub struct SignaturePackage {
    pub package_version: String,
    pub signatures: Vec<SignatureDef>,
}

/// The package shipped with the engine, as JSON text.
pub const DEFAULT_PACKAGE_JSON: &'static str = r#"{
  "package_version": "2.0.0",
  "signatures": [
    {"signature_id":"jpg","file_type":"image","ext":"jpg","header_hex":"FFD8FF","footer_hex":"FFD9","max_size":52428800,"version":2,"parser":"jpeg","fragmentation_strategy":"footer"},
    {"signature_id":"png","file_type":"image","ext":"png","header_hex":"89504E470D0A1A0A","footer_hex":"49454E44AE426082","max_size":52428800,"version":2,"parser":"png","fragmentation_strategy":"footer"},
    {"signature_id":"gif87a","file_type":"image","ext":"gif","header_hex":"474946383761","footer_hex":"003B","max_size":52428800,"version":2,"parser":"gif","fragmentation_strategy":"footer"},
    {"signature_id":"gif89a","file_type":"image","ext":"gif","header_hex":"474946383961","footer_hex":"003B","max_size":52428800,"version":2,"parser":"gif","fragmentation_strategy":"footer"},
    {"signature_id":"webp","file_type":"image","ext":"webp","header_hex":"52494646","footer_hex":null,"max_size":52428800,"version":2,"parser":"riff","container":"riff"},
    {"signature_id":"heic","file_type":"image","ext":"heic","header_hex":"000000186674797068656963","footer_hex":null,"max_size":104857600,"version":2,"parser":"iso-bmff"},
    {"signature_id":"tiff-le","file_type":"image","ext":"tif","header_hex":"49492A00","footer_hex":null,"max_size":104857600,"version":2,"parser":"tiff"},
    {"signature_id":"tiff-be","file_type":"image","ext":"tif","header_hex":"4D4D002A","footer_hex":null,"max_size":104857600,"version":2,"parser":"tiff"},
    {"signature_id":"pdf","file_type":"document","ext":"pdf","header_hex":"255044462D","footer_hex":"2525454F46","max_size":104857600,"version":2,"parser":"pdf","fragmentation_strategy":"footer"},
    {"signature_id":"zip","file_type":"archive","ext":"zip","header_hex":"504B0304","footer_hex":"504B0506","max_size":536870912,"version":2,"parser":"zip","container":"zip"},
    {"signature_id":"rar4","file_type":"archive","ext":"rar","header_hex":"526172211A0700","footer_hex":null,"max_size":536870912,"version":2,"parser":"rar"},
    {"signature_id":"rar5","file_type":"archive","ext":"rar","header_hex":"526172211A070100","footer_hex":null,"max_size":536870912,"version":2,"parser":"rar"},
    {"signature_id":"7z","file_type":"archive","ext":"7z","header_hex":"377ABCAF271C","footer_hex":null,"max_size":536870912,"version":2,"parser":"7z"},
    {"signature_id":"gzip","file_type":"archive","ext":"gz","header_hex":"1F8B08","footer_hex":null,"max_size":268435456,"version":2,"parser":"gzip"},
    {"signature_id":"tar","file_type":"archive","ext":"tar","header_hex":"7573746172","footer_hex":null,"max_size":536870912,"version":2,"parser":"tar"},
    {"signature_id":"mp3-id3","file_type":"audio","ext":"mp3","header_hex":"494433","footer_hex":null,"max_size":104857600,"version":2,"parser":"mp3"},
    {"signature_id":"mp3-frame","file_type":"audio","ext":"mp3","header_hex":"FFF3","footer_hex":null,"max_size":104857600,"version":2,"parser":"mp3"},
    {"signature_id":"wav","file_type":"audio","ext":"wav","header_hex":"52494646","footer_hex":null,"max_size":268435456,"version":2,"parser":"riff"},
    {"signature_id":"flac","file_type":"audio","ext":"flac","header_hex":"664C6143","footer_hex":null,"max_size":268435456,"version":2,"parser":"flac"},
    {"signature_id":"m4a","file_type":"audio","ext":"m4a","header_hex":"00000020667479704D3441","footer_hex":null,"max_size":536870912,"version":2,"parser":"iso-bmff"},
    {"signature_id":"mp4","file_type":"video","ext":"mp4","header_hex":"00000018667479706D703432","footer_hex":null,"max_size":1073741824,"version":2,"parser":"iso-bmff"},
    {"signature_id":"mov","file_type":"video","ext":"mov","header_hex":"000000146674797071742020","footer_hex":null,"max_size":1073741824,"version":2,"parser":"iso-bmff"},
    {"signature_id":"avi","file_type":"video","ext":"avi","header_hex":"52494646","footer_hex":null,"max_size":1073741824,"version":2,"parser":"riff"},
    {"signature_id":"mkv","file_type":"video","ext":"mkv","header_hex":"1A45DFA3","footer_hex":null,"max_size":1073741824,"version":2,"parser":"ebml"},
    {"signature_id":"3gp","file_type":"video","ext":"3gp","header_hex":"0000001466747970336770","footer_hex":null,"max_size":1073741824,"version":2,"parser":"iso-bmff"},
    {"signature_id":"sqlite","file_type":"database","ext":"sqlite","header_hex":"53514C69746520666F726D6174203300","footer_hex":null,"max_size":1073741824,"version":2,"parser":"sqlite"}
  ]
}"#;

/// The built-in signature package (26 common file types), as JSON text.
pub fn default_package_json() -> (r: &'static str)
    ensures
        r@ == DEFAULT_PACKAGE_JSON@,
{
    DEFAULT_PACKAGE_JSON
}

/// Value of an ASCII hexadecimal digit, if `c` is one.
pub open spec fn hex_value(c: u8) -> Option<u8> {
    if 0x30 <= c && c <= 0x39 {
        Some((c - 0x30) as u8)
    } else if 0x41 <= c && c <= 0x46 {
        Some((c - 0x41 + 10) as u8)
    } else if 0x61 <= c && c <= 0x66 {
        Some((c - 0x61 + 10) as u8)
    } else {
        None
    }
}

/// `u8::from_str_radix(pair, 16)` on a two-byte text: two hex digits, or a
/// '+' sign and one digit; anything else is not a number.
pub open spec fn hex_pair(x: u8, y: u8) -> Option<u8> {
    match (hex_value(x), hex_value(y)) {
        (Some(a), Some(b)) => Some((a * 16 + b) as u8),
        (None, Some(b)) => if x == 0x2B { Some(b) } else { None },
        _ => None,
    }
}

/// The decoded bytes of hex text `b` from byte `i`: one byte per pair of
/// characters, pairs that do not parse being skipped.
pub open spec fn hex_decode_from(b: Seq<u8>, i: int) -> Seq<u8>
    decreases b.len() - i,
{
    if i < 0 || i + 2 > b.len() {
        Seq::empty()
    } else {
        match hex_pair(b[i], b[i + 1]) {
            Some(v) => seq![v] + hex_decode_from(b, i + 2),
            None => hex_decode_from(b, i + 2),
        }
    }
}

/// Text that can be cut into two-byte pieces: an even byte length with a
/// character boundary at every even position (`&hex[i..i + 2]` is defined).
pub open spec fn hex_text_ok(b: Seq<u8>) -> bool {
    b.len() % 2 == 0 && forall|i: int| 0 <= i < b.len() && i % 2 == 0 ==> !(0x80 <= #[trigger] b[i] && b[i] < 0xC0)
}

fn hex_value_exec(c: u8) -> (r: Option<u8>)
    ensures
        r == hex_value(c),
{
    if 0x30 <= c && c <= 0x39 {
        Some(c - 0x30)
    } else if 0x41 <= c && c <= 0x46 {
        Some(c - 0x41 + 10)
    } else if 0x61 <= c && c <= 0x66 {
        Some(c - 0x61 + 10)
    } else {
        None
    }
}

/// Whether `hex` can be decoded (see `hex_text_ok`).
pub fn hex_text_valid(hex: &str) -> (r: bool)
    ensures
        r == hex_text_ok(hex.spec_bytes()),
{
    let b = hex.as_bytes();
    if b.len() % 2 != 0 {
        return false;
    }
    let mut i: usize = 0;
    while i < b.len()
        invariant
            b@ == hex.spec_bytes(),
            b@.len() % 2 == 0,
            i <= b@.len(),
            i % 2 == 0,
            forall|j: int| 0 <= j < i && j % 2 == 0 ==> !(0x80 <= #[trigger] b@[j] && b@[j] < 0xC0),
        decreases b@.len() - i,
    {
        if 0x80 <= b[i] && b[i] < 0xC0 {
            return false;
        }
        i = i + 2;
    }
    true
}

/// Decodes hex text into bytes, two characters per byte.
pub fn hex_to_bytes(hex: &str) -> (r: Vec<u8>)
    requires
        hex_text_ok(hex.spec_bytes()),
    ensures
        r@ == hex_decode_from(hex.spec_bytes(), 0),
{
    let b = hex.as_bytes();
    let mut out: Vec<u8> = Vec::new();
    let mut i: usize = 0;
    while i < b.len() && 2 <= b.len() - i
        invariant
            b@ == hex.spec_bytes(),
            hex_text_ok(b@),
            i % 2 == 0,
            i <= b@.len(),
            out@ + hex_decode_from(b@, i as int) == hex_decode_from(b@, 0),
        decreases b@.len() - i,
    {
        let ghost before = out@;
        let x = hex_value_exec(b[i]);
        let y = hex_value_exec(b[i + 1]);
        match (x, y) {
            (Some(p), Some(q)) => {
                out.push(p * 16 + q);
            },
            (None, Some(q)) => {
                if b[i] == 0x2B {
                    out.push(q);
                }
            },
            _ => {},
        }
        assert(out@ + hex_decode_from(b@, i + 2) =~= before + hex_decode_from(b@, i as int));
        i = i + 2;
    }
    assert(hex_decode_from(b@, i as int) =~= Seq::<u8>::empty());
    out
}

/// An upper-case hex digit (`0`-`9`, `A`-`F`).
pub open spec fn hex_digit_upper(v: int) -> char {
    if v < 10 {
        (('0' as int) + v) as char
    } else {
        (('A' as int) + v - 10) as char
    }
}

/// Two upper-case hex digits per byte, most significant nibble first: the
/// form signature packages write headers and footers in.
pub open spec fn hex_upper(data: Seq<u8>) -> Seq<char>
    decreases data.len(),
{
    if data.len() == 0 {
        Seq::empty()
    } else {
        seq![hex_digit_upper((data[0] / 16) as int), hex_digit_upper((data[0] % 16) as int)] + hex_upper(data.drop_first())
    }
}

/// The characters of hex text sit two per byte, high nibble first.
proof fn lemma_hex_lower_at(data: Seq<u8>)
    ensures
        hex_lower(data).len() == 2 * data.len(),
        forall|k: int| 0 <= k < data.len() ==> hex_lower(data)[2 * k] == hex_digit((#[trigger] data[k] / 16) as int)
            && hex_lower(data)[2 * k + 1] == hex_digit((data[k] % 16) as int),
    decreases data.len(),
{
    if data.len() > 0 {
        let t = data.drop_first();
        lemma_hex_lower_at(t);
        assert forall|k: int| 0 <= k < data.len() implies hex_lower(data)[2 * k] == hex_digit((#[trigger] data[k] / 16) as int)
            && hex_lower(data)[2 * k + 1] == hex_digit((data[k] % 16) as int) by {
            if k > 0 {
                assert(data[k] == t[k - 1]);
                assert(hex_lower(data)[2 * k] == hex_lower(t)[2 * (k - 1)]);
                assert(hex_lower(data)[2 * k + 1] == hex_lower(t)[2 * (k - 1) + 1]);
            }
        }
    }
}

/// A hex digit as a byte, and its value read back.
proof fn lemma_hex_digit_byte(v: int)
    requires
        0 <= v < 16,
    ensures
        '\0' <= hex_digit(v) <= '\u{7f}',
        hex_value(hex_digit(v) as u8) == Some(v as u8),
{
    if v < 10 {
        assert(hex_digit(v) as u32 == 48 + v);
    } else {
        assert(hex_digit(v) as u32 == 97 + v - 10);
    }
}

proof fn lemma_decode_hex_from(data: Seq<u8>, enc: Seq<u8>, k: int)
    requires
        0 <= k <= data.len(),
        enc.len() == 2 * data.len(),
        forall|j: int| 0 <= j < data.len() ==> hex_pair(enc[2 * j], #[trigger] enc[2 * j + 1]) == Some(data[j]),
    ensures
        hex_decode_from(enc, 2 * k) == data.subrange(k, data.len() as int),
    decreases data.len() - k,
{
    if k < data.len() {
        lemma_decode_hex_from(data, enc, k + 1);
        assert(hex_pair(enc[2 * k], enc[2 * k + 1]) == Some(data[k]));
        assert(data.subrange(k, data.len() as int) =~= seq![data[k]] + data.subrange(k + 1, data.len() as int));
    } else {
        assert(data.subrange(k, data.len() as int) =~= Seq::<u8>::empty());
    }
}

/// The characters of upper-case hex text sit two per byte, high nibble first.
proof fn lemma_hex_upper_at(data: Seq<u8>)
    ensures
        hex_upper(data).len() == 2 * data.len(),
        forall|k: int| 0 <= k < data.len() ==> hex_upper(data)[2 * k] == hex_digit_upper((#[trigger] data[k] / 16) as int)
            && hex_upper(data)[2 * k + 1] == hex_digit_upper((data[k] % 16) as int),
    decreases data.len(),
{
    if data.len() > 0 {
        let t = data.drop_first();
        lemma_hex_upper_at(t);
        assert forall|k: int| 0 <= k < data.len() implies hex_upper(data)[2 * k] == hex_digit_upper((#[trigger] data[k] / 16) as int)
            && hex_upper(data)[2 * k + 1] == hex_digit_upper((data[k] % 16) as int) by {
            if k > 0 {
                assert(data[k] == t[k - 1]);
                assert(hex_upper(data)[2 * k] == hex_upper(t)[2 * (k - 1)]);
                assert(hex_upper(data)[2 * k + 1] == hex_upper(t)[2 * (k - 1) + 1]);
            }
        }
    }
}

/// An upper-case hex digit as a byte, and its value read back.
proof fn lemma_hex_digit_upper_byte(v: int)
    requires
        0 <= v < 16,
    ensures
        '\0' <= hex_digit_upper(v) <= '\u{7f}',
        hex_value(hex_digit_upper(v) as u8) == Some(v as u8),
{
    if v < 10 {
        assert(hex_digit_upper(v) as u32 == 48 + v);
    } else {
        assert(hex_digit_upper(v) as u32 == 65 + v - 10);
    }
}


/// Upper-case hex text decodes back to the bytes it was written from, and
/// the signature decoder accepts it.
proof fn lemma_hex_upper_round_trip(data: Seq<u8>)
    ensures
        hex_text_ok(encode_utf8(hex_upper(data))),
        hex_decode_from(encode_utf8(hex_upper(data)), 0) == data,
{
    let h = hex_upper(data);
    lemma_hex_upper_at(data);
    assert(is_ascii_chars(h)) by {
        assert forall|i: int| 0 <= i < h.len() implies '\0' <= #[trigger] h[i] <= '\u{7f}' by {
            let k = i / 2;
            lemma_hex_digit_upper_byte((data[k] / 16) as int);
            lemma_hex_digit_upper_byte((data[k] % 16) as int);
            if i % 2 == 0 {
                assert(i == 2 * k);
            } else {
                assert(i == 2 * k + 1);
            }
        }
    }
    is_ascii_chars_encode_utf8(h);
    let enc = encode_utf8(h);
    assert forall|j: int| 0 <= j < data.len() implies hex_pair(enc[2 * j], #[trigger] enc[2 * j + 1]) == Some(data[j]) by {
        let hi = (data[j] / 16) as int;
        let lo = (data[j] % 16) as int;
        lemma_hex_digit_upper_byte(hi);
        lemma_hex_digit_upper_byte(lo);
        assert(enc[2 * j] == h[2 * j] as u8);
        assert(enc[2 * j + 1] == h[2 * j + 1] as u8);
        assert(h[2 * j] == hex_digit_upper(hi));
        assert(hex_value(enc[2 * j]) == Some(hi as u8));
        assert(hex_value(enc[2 * j + 1]) == Some(lo as u8));
        assert(hi * 16 + lo == data[j]);
    }
    lemma_decode_hex_from(data, enc, 0);
    assert(data.subrange(0, data.len() as int) =~= data);
    assert forall|i: int| 0 <= i < enc.len() && i % 2 == 0 implies !(0x80 <= #[trigger] enc[i] && enc[i] < 0xC0) by {
        assert(enc[i] == h[i] as u8);
    }
}


/// Hex text, in lower case as the digest encoder writes it or in upper
/// case as signature packages write headers and footers, decodes back to
/// the bytes it was written from, and the signature decoder accepts it.
pub proof fn law_hex_round_trip(data: Seq<u8>)
    ensures
        hex_text_ok(encode_utf8(hex_lower(data))),
        hex_decode_from(encode_utf8(hex_lower(data)), 0) == data,
        hex_text_ok(encode_utf8(hex_upper(data))),
        hex_decode_from(encode_utf8(hex_upper(data)), 0) == data,
{
    lemma_hex_upper_round_trip(data);
    let h = hex_lower(data);
    lemma_hex_lower_at(data);
    assert(is_ascii_chars(h)) by {
        assert forall|i: int| 0 <= i < h.len() implies '\0' <= #[trigger] h[i] <= '\u{7f}' by {
            let k = i / 2;
            lemma_hex_digit_byte((data[k] / 16) as int);
            lemma_hex_digit_byte((data[k] % 16) as int);
            if i % 2 == 0 {
                assert(i == 2 * k);
            } else {
                assert(i == 2 * k + 1);
            }
        }
    }
    is_ascii_chars_encode_utf8(h);
    let enc = encode_utf8(h);
    assert forall|j: int| 0 <= j < data.len() implies hex_pair(enc[2 * j], #[trigger] enc[2 * j + 1]) == Some(data[j]) by {
        let hi = (data[j] / 16) as int;
        let lo = (data[j] % 16) as int;
        lemma_hex_digit_byte(hi);
        lemma_hex_digit_byte(lo);
        assert(enc[2 * j] == h[2 * j] as u8);
        assert(enc[2 * j + 1] == h[2 * j + 1] as u8);
        assert(h[2 * j] == hex_digit(hi));
        assert(hex_value(enc[2 * j]) == Some(hi as u8));
        assert(hex_value(enc[2 * j + 1]) == Some(lo as u8));
        assert(hi * 16 + lo == data[j]);
    }
    lemma_decode_hex_from(data, enc, 0);
    assert(data.subrange(0, data.len() as int) =~= data);
    assert forall|i: int| 0 <= i < enc.len() && i % 2 == 0 implies !(0x80 <= #[trigger] enc[i] && enc[i] < 0xC0) by {
        assert(enc[i] == h[i] as u8);
    }
}

} // verus!
