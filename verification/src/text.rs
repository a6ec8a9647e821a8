//! Text helpers over `str`/`String` views (sequences of `char`).

use vstd::prelude::*;
use vstd::string::StringSliceAdditionalSpecFns;

verus! {

/// ASCII lower-casing of one byte; other bytes are unchanged.
pub open spec fn ascii_lower(b: u8) -> u8 {
    if 0x41 <= b && b <= 0x5A { (b + 32) as u8 } else { b }
}

/// Two byte strings equal up to ASCII case.
pub open spec fn eq_ascii_nocase(a: Seq<u8>, b: Seq<u8>) -> bool {
    a.len() == b.len() && forall|i: int| 0 <= i < a.len() ==> ascii_lower(#[trigger] a[i]) == ascii_lower(b[i])
}

/// Byte strings equal up to ASCII case (`<[u8]>::eq_ignore_ascii_case`).
pub fn eq_ignore_ascii_case_bytes(x: &[u8], y: &[u8]) -> (r: bool)
    ensures
        r == eq_ascii_nocase(x@, y@),
{
    if x.len() != y.len() {
        return false;
    }
    let mut i: usize = 0;
    while i < x.len()
        invariant
            x@.len() == y@.len(),
            i <= x@.len(),
            forall|j: int| 0 <= j < i ==> ascii_lower(#[trigger] x@[j]) == ascii_lower(y@[j]),
        decreases x@.len() - i,
    {
        let p = x[i];
        let q = y[i];
        let lp = if 0x41 <= p && p <= 0x5A { p + 32 } else { p };
        let lq = if 0x41 <= q && q <= 0x5A { q + 32 } else { q };
        if lp != lq {
            return false;
        }
        i = i + 1;
    }
    true
}

/// `str::eq_ignore_ascii_case`: equality of the UTF-8 bytes up to ASCII case.
pub fn eq_ignore_ascii_case(a: &str, b: &str) -> (r: bool)
    ensures
        r == eq_ascii_nocase(a.spec_bytes(), b.spec_bytes()),
{
    eq_ignore_ascii_case_bytes(a.as_bytes(), b.as_bytes())
}

/// `str::to_owned`.
pub fn owned(s: &str) -> (r: String)
    ensures
        r@ == s@,
{
    s.to_owned()
}

/// Equality of two string slices, compared by their characters.
pub fn str_eq(a: &str, b: &str) -> (r: bool)
    ensures
        r == (a@ == b@),
{
    let x = a.to_owned();
    let y = b.to_owned();
    x == y
}

/// The characters of `s`, in order.
pub fn str_to_chars(s: &str) -> (v: Vec<char>)
    ensures
        v@ == s@,
{
    let n = s.unicode_len();
    let mut v: Vec<char> = Vec::new();
    let mut i: usize = 0;
    while i < n
        invariant
            n == s@.len(),
            i <= n,
            v@ == s@.subrange(0, i as int),
        decreases n - i,
    {
        v.push(s.get_char(i));
        i = i + 1;
    }
    v
}

/// Collects characters into a `String` (`FromIterator<char>`).
#[verifier::external_body]
pub(crate) fn chars_to_string(v: &[char]) -> (s: String)
    ensures
        s@ == v@,
{
    v.iter().collect()
}

/// A Unicode scalar value: at most 0x10FFFF and not a surrogate.
pub open spec fn is_scalar(c: u32) -> bool {
    c <= 0x10FFFF && !(0xD800 <= c && c <= 0xDFFF)
}

/// `char::from_u32`: the character with this code point, when `c` is a
/// Unicode scalar value (the documented behaviour of the std function).
#[verifier::external_body]
pub(crate) fn char_from_u32(c: u32) -> (r: Option<char>)
    ensures
        is_scalar(c) ==> r == Some(c as char),
        !is_scalar(c) ==> r is None,
{
    char::from_u32(c)
}

/// Lossy UTF-16 decoding: a well-formed surrogate pair is one character,
/// every other unit outside the surrogate range is its own character, and
/// an unpaired surrogate becomes U+FFFD (`String::from_utf16_lossy`).
pub open spec fn utf16_lossy(u: Seq<u16>) -> Seq<char>
    decreases u.len(),
{
    if u.len() == 0 {
        Seq::empty()
    } else if u[0] < 0xD800 || u[0] > 0xDFFF {
        seq![(u[0] as u32) as char] + utf16_lossy(u.drop_first())
    } else if u[0] <= 0xDBFF && u.len() >= 2 && 0xDC00 <= u[1] && u[1] <= 0xDFFF {
        seq![((0x10000 + (u[0] - 0xD800) * 0x400 + (u[1] - 0xDC00)) as u32) as char]
            + utf16_lossy(u.subrange(2, u.len() as int))
    } else {
        seq!['\u{FFFD}'] + utf16_lossy(u.drop_first())
    }
}

proof fn lemma_utf16_step(u: Seq<u16>, i: int)
    requires
        0 <= i < u.len(),
    ensures
        utf16_lossy(u.subrange(i, u.len() as int)) == (if u[i] < 0xD800 || u[i] > 0xDFFF {
            seq![(u[i] as u32) as char] + utf16_lossy(u.subrange(i + 1, u.len() as int))
        } else if u[i] <= 0xDBFF && i + 1 < u.len() && 0xDC00 <= u[i + 1] && u[i + 1] <= 0xDFFF {
            seq![((0x10000 + (u[i] - 0xD800) * 0x400 + (u[i + 1] - 0xDC00)) as u32) as char]
                + utf16_lossy(u.subrange(i + 2, u.len() as int))
        } else {
            seq!['\u{FFFD}'] + utf16_lossy(u.subrange(i + 1, u.len() as int))
        }),
{
    let s = u.subrange(i, u.len() as int);
    assert(s.drop_first() =~= u.subrange(i + 1, u.len() as int));
    if s.len() >= 2 {
        assert(s.subrange(2, s.len() as int) =~= u.subrange(i + 2, u.len() as int));
    }
}

/// Decodes UTF-16 code units, replacing unpaired surrogates by U+FFFD.
pub fn utf16_to_string_lossy(u: &[u16]) -> (s: String)
    ensures
        s@ == utf16_lossy(u@),
{
    let mut out: Vec<char> = Vec::new();
    let mut i: usize = 0;
    assert(u@.subrange(0, u@.len() as int) =~= u@);
    while i < u.len()
        invariant
            i <= u@.len(),
            out@ + utf16_lossy(u@.subrange(i as int, u@.len() as int)) == utf16_lossy(u@),
        decreases u@.len() - i,
    {
        proof {
            lemma_utf16_step(u@, i as int);
        }
        let c = u[i];
        if c < 0xD800 || c > 0xDFFF {
            let ch = char_from_u32(c as u32);
            out.push(ch.unwrap());
            proof {
                assert(out@ + utf16_lossy(u@.subrange(i + 1, u@.len() as int)) =~= utf16_lossy(u@));
            }
            i = i + 1;
        } else if c <= 0xDBFF && i + 1 < u.len() && 0xDC00 <= u[i + 1] && u[i + 1] <= 0xDFFF {
            let d = u[i + 1];
            let cp: u32 = 0x10000 + (c as u32 - 0xD800) * 0x400 + (d as u32 - 0xDC00);
            let ch = char_from_u32(cp);
            out.push(ch.unwrap());
            proof {
                assert(out@ + utf16_lossy(u@.subrange(i + 2, u@.len() as int)) =~= utf16_lossy(u@));
            }
            i = i + 2;
        } else {
            out.push('\u{FFFD}');
            proof {
                assert(out@ + utf16_lossy(u@.subrange(i + 1, u@.len() as int)) =~= utf16_lossy(u@));
            }
            i = i + 1;
        }
    }
    assert(u@.subrange(u@.len() as int, u@.len() as int) =~= Seq::<u16>::empty());
    assert(out@ =~= utf16_lossy(u@));
    chars_to_string(out.as_slice())
}

/// Unicode `White_Space` (`char::is_whitespace`).
pub open spec fn is_ws(c: char) -> bool {
    let v = c as u32;
    (0x09 <= v && v <= 0x0D) || v == 0x20 || v == 0x85 || v == 0xA0 || v == 0x1680 || (0x2000 <= v
        && v <= 0x200A) || v == 0x2028 || v == 0x2029 || v == 0x202F || v == 0x205F || v == 0x3000
}

/// Whether a character is Unicode whitespace.
pub fn char_is_whitespace(c: char) -> (r: bool)
    ensures
        r == is_ws(c),
{
    let v = c as u32;
    (0x09 <= v && v <= 0x0D) || v == 0x20 || v == 0x85 || v == 0xA0 || v == 0x1680 || (0x2000 <= v
        && v <= 0x200A) || v == 0x2028 || v == 0x2029 || v == 0x202F || v == 0x205F || v == 0x3000
}

/// Leading whitespace removed.
pub open spec fn trim_start(s: Seq<char>) -> Seq<char>
    decreases s.len(),
{
    if s.len() > 0 && is_ws(s[0]) {
        trim_start(s.drop_first())
    } else {
        s
    }
}

/// Trailing whitespace removed.
pub open spec fn trim_end(s: Seq<char>) -> Seq<char>
    decreases s.len(),
{
    if s.len() > 0 && is_ws(s.last()) {
        trim_end(s.drop_last())
    } else {
        s
    }
}

/// `str::trim`.
pub open spec fn trim(s: Seq<char>) -> Seq<char> {
    trim_end(trim_start(s))
}

/// `str::trim` on a character sequence.
pub fn trim_chars(s: &[char]) -> (r: Vec<char>)
    ensures
        r@ == trim(s@),
{
    let mut a: usize = 0;
    assert(s@.subrange(0, s@.len() as int) =~= s@);
    while a < s.len() && char_is_whitespace(s[a])
        invariant
            a <= s@.len(),
            trim_start(s@) == trim_start(s@.subrange(a as int, s@.len() as int)),
        decreases s@.len() - a,
    {
        assert(s@.subrange(a as int, s@.len() as int).drop_first() =~= s@.subrange(a + 1, s@.len() as int));
        a = a + 1;
    }
    assert(trim_start(s@) == s@.subrange(a as int, s@.len() as int));
    let mut b: usize = s.len();
    while b > a && char_is_whitespace(s[b - 1])
        invariant
            a <= b <= s@.len(),
            trim(s@) == trim_end(s@.subrange(a as int, b as int)),
        decreases b,
    {
        assert(s@.subrange(a as int, b as int).drop_last() =~= s@.subrange(a as int, b - 1));
        b = b - 1;
    }
    let mut v: Vec<char> = Vec::new();
    let mut i: usize = a;
    while i < b
        invariant
            a <= i <= b <= s@.len(),
            v@ == s@.subrange(a as int, i as int),
        decreases b - i,
    {
        v.push(s[i]);
        i = i + 1;
    }
    v
}

/// `String::from_utf8_lossy`: UTF-8 decoding with each maximal invalid
/// subsequence replaced by U+FFFD.
pub uninterp spec fn utf8_lossy(b: Seq<u8>) -> Seq<char>;

/// Calls `String::from_utf8_lossy`. Trusted: the text is the crate's lossy
/// decoding of exactly these bytes, named `utf8_lossy`.
#[verifier::external_body]
pub(crate) fn utf8_to_string_lossy(b: &[u8]) -> (r: String)
    ensures
        r@ == utf8_lossy(b@),
{
    String::from_utf8_lossy(b).into_owned()
}


/// The character of a decimal digit.
pub open spec fn digit_char(d: int) -> char {
    (d + 48) as char
}

/// Decimal notation of `n`, without leading zeros.
pub open spec fn decimal(n: nat) -> Seq<char>
    decreases n,
{
    if n < 10 {
        seq![digit_char(n as int)]
    } else {
        decimal(n / 10).push(digit_char((n % 10) as int))
    }
}

fn digit_of(d: u64) -> (c: char)
    requires
        d < 10,
    ensures
        c == digit_char(d as int),
{
    let b: u8 = 48 + d as u8;
    b as char
}

/// `n.to_string()`.
pub fn u64_to_decimal(n: u64) -> (s: String)
    ensures
        s@ == decimal(n as nat),
{
    let mut q = n;
    let mut acc: Vec<char> = Vec::new();
    while q >= 10
        invariant
            decimal(n as nat) == decimal(q as nat) + acc@,
        decreases q,
    {
        let d = q % 10;
        let c = digit_of(d);
        proof {
            assert(decimal(q as nat) == decimal((q / 10) as nat).push(digit_char(d as int)));
            assert(decimal(q as nat) + acc@ =~= decimal((q / 10) as nat) + seq![c].add(acc@));
        }
        acc.insert(0, c);
        assert(acc@ =~= seq![c].add(acc@.drop_first()));
        q = q / 10;
    }
    let c = digit_of(q);
    acc.insert(0, c);
    assert(acc@ =~= decimal(n as nat));
    chars_to_string(acc.as_slice())
}

/// `s` left-padded with `0` to at least `w` characters.
pub open spec fn zero_pad(s: Seq<char>, w: int) -> Seq<char>
    decreases w - s.len(),
{
    if s.len() >= w {
        s
    } else {
        zero_pad(seq!['0'].add(s), w)
    }
}

/// `format!("{:0w$}", n)`.
pub fn u64_to_padded(n: u64, w: usize) -> (s: String)
    ensures
        s@ == zero_pad(decimal(n as nat), w as int),
{
    let d = u64_to_decimal(n);
    let mut v = str_to_chars(d.as_str());
    while v.len() < w
        invariant
            zero_pad(v@, w as int) == zero_pad(decimal(n as nat), w as int),
        decreases w - v@.len(),
    {
        let ghost before = v@;
        v.insert(0, '0');
        assert(v@ =~= seq!['0'].add(before));
    }
    chars_to_string(v.as_slice())
}

pub open spec fn is_digit(c: char) -> bool {
    '0' <= c && c <= '9'
}

/// The value of a string of decimal digits.
pub open spec fn digits_value(s: Seq<char>) -> int
    decreases s.len(),
{
    if s.len() == 0 {
        0
    } else {
        digits_value(s.drop_last()) * 10 + (s.last() as int - 48)
    }
}

/// `s.parse::<u64>()`: an optional `+` then at least one decimal digit,
/// with a value that fits in 64 bits.
pub open spec fn parse_u64(s: Seq<char>) -> Option<u64> {
    let body = number_body(s);
    if body.len() > 0 && all_digits(body) && digits_value(body) <= u64::MAX {
        Some(digits_value(body) as u64)
    } else {
        None
    }
}

/// The digits part of a number: without a leading `+`.
pub open spec fn number_body(s: Seq<char>) -> Seq<char> {
    if s.len() > 0 && s[0] == '+' { s.drop_first() } else { s }
}

pub open spec fn all_digits(s: Seq<char>) -> bool {
    forall|i: int| 0 <= i < s.len() ==> is_digit(#[trigger] s[i])
}

proof fn lemma_digits_value_grows(s: Seq<char>, k: int)
    requires
        0 <= k <= s.len(),
        forall|i: int| 0 <= i < s.len() ==> is_digit(#[trigger] s[i]),
    ensures
        digits_value(s.subrange(0, k)) <= digits_value(s),
        0 <= digits_value(s.subrange(0, k)),
    decreases s.len() - k,
{
    if k < s.len() {
        lemma_digits_value_grows(s, k + 1);
        let t = s.subrange(0, k + 1);
        assert(t.drop_last() =~= s.subrange(0, k));
        assert(digits_value(t) == digits_value(s.subrange(0, k)) * 10 + (t.last() as int - 48));
    } else {
        assert(s.subrange(0, k) =~= s);
        lemma_digits_nonneg(s);
    }
}

proof fn lemma_digits_nonneg(s: Seq<char>)
    requires
        forall|i: int| 0 <= i < s.len() ==> is_digit(#[trigger] s[i]),
    ensures
        0 <= digits_value(s),
    decreases s.len(),
{
    if s.len() > 0 {
        lemma_digits_nonneg(s.drop_last());
        assert(is_digit(s[s.len() - 1]));
    }
}

/// `s.parse::<u64>()` over the characters of `s` (see `parse_u64`).
pub fn parse_u64_chars(s: &[char]) -> (r: Option<u64>)
    ensures
        r == parse_u64(s@),
{
    let start: usize = if s.len() > 0 && s[0] == '+' { 1 } else { 0 };
    let ghost body = number_body(s@);
    assert(body =~= s@.subrange(start as int, s@.len() as int));
    if start >= s.len() {
        return None;
    }
    let mut v: u64 = 0;
    let mut i: usize = start;
    while i < s.len()
        invariant
            start <= i <= s@.len(),
            body == s@.subrange(start as int, s@.len() as int),
            body == number_body(s@),
            forall|j: int| start <= j < i ==> is_digit(#[trigger] s@[j]),
            v == digits_value(s@.subrange(start as int, i as int)),
        decreases s@.len() - i,
    {
        let c = s[i];
        if !('0' <= c && c <= '9') {
            proof {
                assert(body[i - start] == s@[i as int]);
                assert(!is_digit(body[i - start]));
                assert(!all_digits(body));
                assert(parse_u64(s@) is None);
            }
            return None;
        }
        let d = (c as u32 - 48) as u64;
        let ghost pre = s@.subrange(start as int, i as int);
        let ghost nxt = s@.subrange(start as int, i + 1);
        proof {
            assert(nxt.drop_last() =~= pre);
            assert(digits_value(nxt) == digits_value(pre) * 10 + d);
        }
        if v > (u64::MAX - d) / 10 {
            proof {
                assert(v * 10 + d > u64::MAX) by (nonlinear_arith)
                    requires v > (u64::MAX - d) / 10, d < 10;
                if all_digits(body) {
                    lemma_digits_value_grows(body, i + 1 - start);
                    assert(body.subrange(0, i + 1 - start) =~= nxt);
                    assert(digits_value(body) > u64::MAX);
                }
                assert(parse_u64(s@) is None);
            }
            return None;
        }
        v = v * 10 + d;
        i = i + 1;
    }
    proof {
        assert(s@.subrange(start as int, i as int) =~= body);
        assert forall|j: int| 0 <= j < body.len() implies is_digit(#[trigger] body[j]) by {
            assert(body[j] == s@[start + j]);
        }
    }
    Some(v)
}


/// `s` without every repetition of `suf` at its end (`trim_end_matches`).
pub open spec fn strip_suffix_all(s: Seq<char>, suf: Seq<char>) -> Seq<char>
    decreases s.len(),
{
    if suf.len() > 0 && s.len() >= suf.len() && s.subrange(s.len() - suf.len(), s.len() as int) == suf {
        strip_suffix_all(s.subrange(0, s.len() - suf.len()), suf)
    } else {
        s
    }
}

/// The characters before the first whitespace.
pub open spec fn take_until_ws(s: Seq<char>) -> Seq<char>
    decreases s.len(),
{
    if s.len() == 0 || is_ws(s[0]) {
        Seq::empty()
    } else {
        seq![s[0]] + take_until_ws(s.drop_first())
    }
}

/// The first whitespace-separated word (`split_whitespace().next()`).
pub open spec fn first_word(s: Seq<char>) -> Option<Seq<char>> {
    let t = trim_start(s);
    if t.len() == 0 {
        None
    } else {
        Some(take_until_ws(t))
    }
}

/// `s` with every trailing repetition of `suf` removed.
pub fn strip_suffix_all_chars(s: &[char], suf: &[char]) -> (r: Vec<char>)
    ensures
        r@ == strip_suffix_all(s@, suf@),
{
    let mut end: usize = s.len();
    assert(s@.subrange(0, s@.len() as int) =~= s@);
    loop
        invariant
            end <= s@.len(),
            strip_suffix_all(s@, suf@) == strip_suffix_all(s@.subrange(0, end as int), suf@),
        ensures
            end <= s@.len(),
            strip_suffix_all(s@, suf@) == s@.subrange(0, end as int),
        decreases end,
    {
        if suf.len() == 0 || end < suf.len() {
            break;
        }
        let start = end - suf.len();
        let mut j: usize = 0;
        let mut same = true;
        while j < suf.len()
            invariant
                start + suf@.len() == end,
                end <= s@.len(),
                j <= suf@.len(),
                same == (forall|x: int| 0 <= x < j ==> s@[start + x] == suf@[x]),
            decreases suf@.len() - j,
        {
            if s[start + j] != suf[j] {
                same = false;
            }
            j = j + 1;
        }
        let ghost cur = s@.subrange(0, end as int);
        proof {
            assert(same == (cur.subrange(cur.len() - suf@.len(), cur.len() as int) == suf@)) by {
                if same {
                    assert(cur.subrange(cur.len() - suf@.len(), cur.len() as int) =~= suf@);
                } else {
                    let x = choose|x: int| 0 <= x < suf@.len() && s@[start + x] != suf@[x];
                    assert(cur.subrange(cur.len() - suf@.len(), cur.len() as int)[x] != suf@[x]);
                }
            }
        }
        if !same {
            break;
        }
        assert(cur.subrange(0, cur.len() - suf@.len()) =~= s@.subrange(0, start as int));
        end = start;
    }
    let mut v: Vec<char> = Vec::new();
    let mut i: usize = 0;
    while i < end
        invariant
            end <= s@.len(),
            i <= end,
            v@ == s@.subrange(0, i as int),
        decreases end - i,
    {
        v.push(s[i]);
        i = i + 1;
    }
    v
}

proof fn lemma_take_until_ws(s: Seq<char>, k: int)
    requires
        0 <= k <= s.len(),
        forall|i: int| 0 <= i < k ==> !is_ws(#[trigger] s[i]),
        k < s.len() ==> is_ws(s[k]),
    ensures
        take_until_ws(s) == s.subrange(0, k),
    decreases k,
{
    if k > 0 {
        let t = s.drop_first();
        assert forall|i: int| 0 <= i < k - 1 implies !is_ws(#[trigger] t[i]) by {
            assert(t[i] == s[i + 1]);
        }
        if k - 1 < t.len() {
            assert(t[k - 1] == s[k]);
        }
        lemma_take_until_ws(t, k - 1);
        assert(s.subrange(0, k) =~= seq![s[0]] + t.subrange(0, k - 1));
    } else {
        assert(s.subrange(0, 0) =~= Seq::<char>::empty());
    }
}

fn skip_ws(s: &[char]) -> (a: usize)
    ensures
        a <= s@.len(),
        trim_start(s@) == s@.subrange(a as int, s@.len() as int),
{
    let mut a: usize = 0;
    assert(s@.subrange(0, s@.len() as int) =~= s@);
    while a < s.len() && char_is_whitespace(s[a])
        invariant
            a <= s@.len(),
            trim_start(s@) == trim_start(s@.subrange(a as int, s@.len() as int)),
        decreases s@.len() - a,
    {
        assert(s@.subrange(a as int, s@.len() as int).drop_first() =~= s@.subrange(a + 1, s@.len() as int));
        a = a + 1;
    }
    a
}

/// The first whitespace-separated word, if any.
pub fn first_word_chars(s: &[char]) -> (r: Option<Vec<char>>)
    ensures
        match r {
            Some(w) => first_word(s@) == Some(w@),
            None => first_word(s@) is None,
        },
{
    let a = skip_ws(s);
    if a == s.len() {
        return None;
    }
    let ghost t = s@.subrange(a as int, s@.len() as int);
    let mut b: usize = a;
    while b < s.len() && !char_is_whitespace(s[b])
        invariant
            a <= b <= s@.len(),
            forall|i: int| a <= i < b ==> !is_ws(#[trigger] s@[i]),
        decreases s@.len() - b,
    {
        b = b + 1;
    }
    proof {
        assert forall|i: int| 0 <= i < b - a implies !is_ws(#[trigger] t[i]) by {
            assert(t[i] == s@[a + i]);
        }
        if b < s@.len() {
            assert(t[b - a] == s@[b as int]);
        }
        lemma_take_until_ws(t, b - a);
        assert(t.subrange(0, b - a) =~= s@.subrange(a as int, b as int));
    }
    let mut w: Vec<char> = Vec::new();
    let mut i: usize = a;
    while i < b
        invariant
            a <= i <= b <= s@.len(),
            w@ == s@.subrange(a as int, i as int),
        decreases b - i,
    {
        w.push(s[i]);
        i = i + 1;
    }
    Some(w)
}


/// Unicode lower-casing of a string, as `str::to_lowercase` computes it.
pub uninterp spec fn unicode_lowercase(s: Seq<char>) -> Seq<char>;

/// Calls `str::to_lowercase`. Trusted: the result is the Unicode lower
/// case of exactly these characters, a function of them alone.
#[verifier::external_body]
pub(crate) fn to_lowercase(s: &str) -> (r: String)
    ensures
        r@ == unicode_lowercase(s@),
{
    s.to_lowercase()
}

/// The text after the last `sep` (all of it when there is none).
pub open spec fn after_last(s: Seq<char>, sep: char) -> Seq<char>
    decreases s.len(),
{
    if s.len() == 0 {
        s
    } else if s.last() == sep {
        Seq::empty()
    } else {
        after_last(s.drop_last(), sep).push(s.last())
    }
}

/// `s.rsplit(sep).next().unwrap()`: the text after the last `sep`.
pub fn after_last_chars(s: &[char], sep: char) -> (r: Vec<char>)
    ensures
        r@ == after_last(s@, sep),
{
    let mut start: usize = 0;
    let mut i: usize = 0;
    while i < s.len()
        invariant
            start <= i <= s@.len(),
            after_last(s@.subrange(0, i as int), sep) == s@.subrange(start as int, i as int),
        decreases s@.len() - i,
    {
        assert(s@.subrange(0, i + 1).drop_last() =~= s@.subrange(0, i as int));
        if s[i] == sep {
            start = i + 1;
            assert(s@.subrange(start as int, i + 1) =~= Seq::<char>::empty());
        } else {
            assert(s@.subrange(start as int, i + 1) =~= s@.subrange(start as int, i as int).push(s@[i as int]));
        }
        i = i + 1;
    }
    assert(s@.subrange(0, i as int) =~= s@);
    let mut v: Vec<char> = Vec::new();
    let mut j: usize = start;
    while j < s.len()
        invariant
            start <= j <= s@.len(),
            v@ == s@.subrange(start as int, j as int),
        decreases s@.len() - j,
    {
        v.push(s[j]);
        j = j + 1;
    }
    v
}


proof fn lemma_decimal_digits(n: nat)
    ensures
        decimal(n).len() > 0,
        all_digits(decimal(n)),
        digits_value(decimal(n)) == n,
    decreases n,
{
    let c = digit_char((n % 10) as int);
    assert(c as int == (n % 10) + 48);
    if n >= 10 {
        lemma_decimal_digits(n / 10);
        let d = decimal(n / 10);
        assert(decimal(n) == d.push(c));
        assert(decimal(n).drop_last() =~= d);
        assert(digits_value(decimal(n)) == digits_value(d) * 10 + (c as int - 48));
        assert((n / 10) * 10 + n % 10 == n) by (nonlinear_arith);
        assert forall|i: int| 0 <= i < decimal(n).len() implies is_digit(#[trigger] decimal(n)[i]) by {
            if i < d.len() {
                assert(decimal(n)[i] == d[i]);
            }
        }
    } else {
        assert(decimal(n) == seq![c]);
        assert(decimal(n).drop_last() =~= Seq::<char>::empty());
        assert(digits_value(decimal(n)) == digits_value(Seq::<char>::empty()) * 10 + (c as int - 48));
        assert(is_digit(decimal(n)[0]));
    }
}

/// Parsing the decimal text of a number gives the number back: what
/// `u64_to_decimal` writes, `parse_u64_chars` reads.
pub proof fn law_decimal_parses_back(n: u64)
    ensures
        parse_u64(decimal(n as nat)) == Some(n),
{
    lemma_decimal_digits(n as nat);
    assert(is_digit(decimal(n as nat)[0]));
    assert(number_body(decimal(n as nat)) == decimal(n as nat));
}


/// The whitespace-separated words of `s` and whether `s` ends inside a
/// word (`split_whitespace`).
pub open spec fn words_fold(s: Seq<char>) -> (Seq<Seq<char>>, bool)
    decreases s.len(),
{
    if s.len() == 0 {
        (Seq::empty(), false)
    } else {
        let (toks, inside) = words_fold(s.drop_last());
        let c = s.last();
        if is_ws(c) {
            (toks, false)
        } else if inside && toks.len() > 0 {
            (toks.update(toks.len() - 1, toks.last().push(c)), true)
        } else {
            (toks.push(seq![c]), true)
        }
    }
}

pub open spec fn words(s: Seq<char>) -> Seq<Seq<char>> {
    words_fold(s).0
}

/// The whitespace-separated words of `s` (`split_whitespace`).
pub fn words_chars(s: &[char]) -> (r: Vec<Vec<char>>)
    ensures
        r@.map_values(|w: Vec<char>| w@) == words(s@),
{
    let mut toks: Vec<Vec<char>> = Vec::new();
    let mut cur: Vec<char> = Vec::new();
    let mut inside = false;
    let mut i: usize = 0;
    while i < s.len()
        invariant
            i <= s@.len(),
            words_fold(s@.subrange(0, i as int)).1 == inside,
            inside ==> words_fold(s@.subrange(0, i as int)).0 == toks@.map_values(|w: Vec<char>| w@).push(cur@),
            !inside ==> words_fold(s@.subrange(0, i as int)).0 == toks@.map_values(|w: Vec<char>| w@),
        decreases s@.len() - i,
    {
        let c = s[i];
        let ghost pre = s@.subrange(0, i as int);
        assert(s@.subrange(0, i + 1).drop_last() =~= pre);
        assert(s@.subrange(0, i + 1).last() == c);
        if char_is_whitespace(c) {
            if inside {
                let mut w: Vec<char> = Vec::new();
                std::mem::swap(&mut w, &mut cur);
                let ghost before = toks@.map_values(|w: Vec<char>| w@);
                toks.push(w);
                assert(toks@.map_values(|w: Vec<char>| w@) =~= before.push(w@));
            }
            inside = false;
        } else {
            if inside {
                let ghost before = words_fold(pre).0;
                cur.push(c);
                assert(before.len() > 0);
                assert(before.update(before.len() - 1, before.last().push(c)) =~= toks@.map_values(|w: Vec<char>| w@).push(cur@));
            } else {
                cur = Vec::new();
                cur.push(c);
                assert(cur@ =~= seq![c]);
            }
            inside = true;
        }
        i = i + 1;
    }
    assert(s@.subrange(0, i as int) =~= s@);
    if inside {
        let ghost before = toks@.map_values(|w: Vec<char>| w@);
        toks.push(cur);
        assert(toks@.map_values(|w: Vec<char>| w@) =~= before.push(words_fold(s@).0.last()));
        assert(words_fold(s@).0 =~= before.push(words_fold(s@).0.last()));
    }
    toks
}

/// Unicode upper-casing of a string, as `str::to_uppercase` computes it.
pub uninterp spec fn unicode_uppercase(s: Seq<char>) -> Seq<char>;

/// Calls `str::to_uppercase`. Trusted: the result is the Unicode upper
/// case of exactly these characters, a function of them alone.
#[verifier::external_body]
pub(crate) fn to_uppercase(s: &str) -> (r: String)
    ensures
        r@ == unicode_uppercase(s@),
{
    s.to_uppercase()
}


/// The lines of a text, split at `\n`.
pub open spec fn split_lines(s: Seq<char>) -> Seq<Seq<char>>
    decreases s.len(),
{
    if s.len() == 0 {
        seq![Seq::empty()]
    } else {
        let r = split_lines(s.drop_last());
        if s.last() == '\n' {
            r.push(Seq::empty())
        } else {
            r.update(r.len() - 1, r.last().push(s.last()))
        }
    }
}

/// The lines of `s`, split at `\n`.
pub fn lines_chars(s: &[char]) -> (r: Vec<Vec<char>>)
    ensures
        r@.map_values(|l: Vec<char>| l@) == split_lines(s@),
{
    let mut done: Vec<Vec<char>> = Vec::new();
    let mut line: Vec<char> = Vec::new();
    let mut i: usize = 0;
    assert(s@.subrange(0, 0) =~= Seq::<char>::empty());
    while i < s.len()
        invariant
            i <= s@.len(),
            split_lines(s@.subrange(0, i as int)) == done@.map_values(|l: Vec<char>| l@).push(line@),
        decreases s@.len() - i,
    {
        let ghost pre = split_lines(s@.subrange(0, i as int));
        assert(s@.subrange(0, i + 1).drop_last() =~= s@.subrange(0, i as int));
        if s[i] == '\n' {
            let mut l: Vec<char> = Vec::new();
            std::mem::swap(&mut l, &mut line);
            let ghost before = done@.map_values(|l: Vec<char>| l@);
            done.push(l);
            assert(done@.map_values(|l: Vec<char>| l@) =~= before.push(l@));
            assert(split_lines(s@.subrange(0, i + 1)) =~= done@.map_values(|l: Vec<char>| l@).push(line@));
        } else {
            line.push(s[i]);
            assert(split_lines(s@.subrange(0, i + 1)) =~= done@.map_values(|l: Vec<char>| l@).push(line@));
        }
        i = i + 1;
    }
    assert(s@.subrange(0, i as int) =~= s@);
    let ghost before = done@.map_values(|l: Vec<char>| l@);
    done.push(line);
    assert(done@.map_values(|l: Vec<char>| l@) =~= before.push(line@));
    done
}

/// The parts of `s` between occurrences of `sep` (`str::split`); there is
/// always at least one.
pub open spec fn split_at_char(s: Seq<char>, sep: char) -> Seq<Seq<char>>
    decreases s.len(),
{
    if s.len() == 0 {
        seq![Seq::empty()]
    } else {
        let r = split_at_char(s.drop_last(), sep);
        if s.last() == sep {
            r.push(Seq::empty())
        } else {
            r.update(r.len() - 1, r.last().push(s.last()))
        }
    }
}

/// The parts of `s` between occurrences of `sep`.
pub fn split_chars(s: &[char], sep: char) -> (r: Vec<Vec<char>>)
    ensures
        r@.map_values(|l: Vec<char>| l@) == split_at_char(s@, sep),
{
    let mut done: Vec<Vec<char>> = Vec::new();
    let mut part: Vec<char> = Vec::new();
    let mut i: usize = 0;
    assert(s@.subrange(0, 0) =~= Seq::<char>::empty());
    while i < s.len()
        invariant
            i <= s@.len(),
            split_at_char(s@.subrange(0, i as int), sep) == done@.map_values(|l: Vec<char>| l@).push(part@),
        decreases s@.len() - i,
    {
        assert(s@.subrange(0, i + 1).drop_last() =~= s@.subrange(0, i as int));
        if s[i] == sep {
            let mut l: Vec<char> = Vec::new();
            std::mem::swap(&mut l, &mut part);
            let ghost before = done@.map_values(|l: Vec<char>| l@);
            done.push(l);
            assert(done@.map_values(|l: Vec<char>| l@) =~= before.push(l@));
            assert(split_at_char(s@.subrange(0, i + 1), sep) =~= done@.map_values(|l: Vec<char>| l@).push(part@));
        } else {
            part.push(s[i]);
            assert(split_at_char(s@.subrange(0, i + 1), sep) =~= done@.map_values(|l: Vec<char>| l@).push(part@));
        }
        i = i + 1;
    }
    assert(s@.subrange(0, i as int) =~= s@);
    let ghost before = done@.map_values(|l: Vec<char>| l@);
    done.push(part);
    assert(done@.map_values(|l: Vec<char>| l@) =~= before.push(part@));
    done
}

/// `p` occurs in `s` at position `i`.
pub open spec fn chars_at(s: Seq<char>, p: Seq<char>, i: int) -> bool {
    0 <= i && i + p.len() <= s.len() && s.subrange(i, i + p.len()) == p
}

/// The first position at or after `k` where `p` occurs in `s` (`str::find`).
pub open spec fn find_chars_from(s: Seq<char>, p: Seq<char>, k: int) -> Option<int>
    decreases s.len() + 1 - k,
{
    if k < 0 || k + p.len() > s.len() {
        None
    } else if s.subrange(k, k + p.len()) == p {
        Some(k)
    } else {
        find_chars_from(s, p, k + 1)
    }
}

/// The first position of the literal `lit` in `s`.
pub fn find_lit(s: &[char], lit: &str) -> (r: Option<usize>)
    ensures
        match r {
            Some(i) => find_chars_from(s@, lit@, 0) == Some(i as int) && chars_at(s@, lit@, i as int),
            None => find_chars_from(s@, lit@, 0) is None,
        },
{
    let p = str_to_chars(lit);
    if p.len() > s.len() {
        return None;
    }
    let last = s.len() - p.len();
    let mut k: usize = 0;
    while k <= last
        invariant
            s@.len() <= usize::MAX,
            p@ == lit@,
            last == s@.len() - p@.len(),
            p@.len() <= s@.len(),
            find_chars_from(s@, p@, 0) == find_chars_from(s@, p@, k as int),
        decreases last + 1 - k,
    {
        let mut j: usize = 0;
        let mut same = true;
        while j < p.len()
            invariant
                k <= last,
                last + p@.len() == s@.len(),
                s@.len() <= usize::MAX,
                j <= p@.len(),
                same == (forall|x: int| 0 <= x < j ==> s@[k + x] == p@[x]),
            decreases p@.len() - j,
        {
            if s[k + j] != p[j] {
                same = false;
            }
            j = j + 1;
        }
        proof {
            if same {
                assert(s@.subrange(k as int, k + p@.len()) =~= p@);
            } else {
                let x = choose|x: int| 0 <= x < p@.len() && s@[k + x] != p@[x];
                assert(s@.subrange(k as int, k + p@.len())[x] != p@[x]);
            }
        }
        if same {
            return Some(k);
        }
        if k == last {
            assert(find_chars_from(s@, p@, k + 1) is None);
            return None;
        }
        k = k + 1;
    }
    None
}

pub open spec fn is_ascii_digit(c: char) -> bool {
    '0' <= c && c <= '9'
}

/// The leading ASCII digits of `s` (`chars().take_while(is_ascii_digit)`).
pub open spec fn leading_digits(s: Seq<char>) -> Seq<char>
    decreases s.len(),
{
    if s.len() == 0 || !is_ascii_digit(s[0]) {
        Seq::empty()
    } else {
        seq![s[0]] + leading_digits(s.drop_first())
    }
}

/// The leading ASCII digits of `s` from position `from`.
pub fn leading_digits_from(s: &[char], from: usize) -> (r: Vec<char>)
    requires
        from <= s@.len(),
    ensures
        r@ == leading_digits(s@.subrange(from as int, s@.len() as int)),
{
    let mut end: usize = from;
    while end < s.len() && '0' <= s[end] && s[end] <= '9'
        invariant
            from <= end <= s@.len(),
            forall|x: int| from <= x < end ==> is_ascii_digit(#[trigger] s@[x]),
        decreases s@.len() - end,
    {
        end = end + 1;
    }
    let mut r: Vec<char> = Vec::new();
    let mut i: usize = from;
    while i < end
        invariant
            from <= i <= end <= s@.len(),
            r@ == s@.subrange(from as int, i as int),
        decreases end - i,
    {
        r.push(s[i]);
        i = i + 1;
    }
    proof {
        lemma_leading_digits(s@.subrange(from as int, s@.len() as int), end - from);
        assert(s@.subrange(from as int, s@.len() as int).subrange(0, end - from) =~= r@);
    }
    r
}

/// Leading digits up to the first non-digit at `n`.
proof fn lemma_leading_digits(t: Seq<char>, n: int)
    requires
        0 <= n <= t.len(),
        forall|x: int| 0 <= x < n ==> is_ascii_digit(#[trigger] t[x]),
        n == t.len() || !is_ascii_digit(t[n]),
    ensures
        leading_digits(t) == t.subrange(0, n),
    decreases n,
{
    if n > 0 {
        let u = t.drop_first();
        assert forall|x: int| 0 <= x < n - 1 implies is_ascii_digit(#[trigger] u[x]) by {
            assert(u[x] == t[x + 1]);
        }
        if n < t.len() {
            assert(u[n - 1] == t[n]);
        }
        lemma_leading_digits(u, n - 1);
        assert(t.subrange(0, n) =~= seq![t[0]] + u.subrange(0, n - 1));
    } else {
        assert(t.subrange(0, 0) =~= Seq::<char>::empty());
    }
}

} // verus!
