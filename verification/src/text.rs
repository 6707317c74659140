//! Verified string helpers shared by the rest of the library: equality,
//! Unicode whitespace, trimming, ASCII classes, decimal numbers and
//! lowercase hex.

use vstd::prelude::*;
use vstd::string::*;

verus! {

/// Equality of two strings by character content.
pub fn str_eq(left: &str, right: &str) -> (result: bool)
    ensures
        result == (left@ == right@),
{
    let l = left.to_owned();
    let r = right.to_owned();
    l == r
}

/// An owned copy of a string slice.
pub fn owned(s: &str) -> (result: String)
    ensures
        result@ == s@,
{
    s.to_owned()
}

/// Concatenation of two strings.
pub fn concat(left: &str, right: &str) -> (result: String)
    ensures
        result@ == left@ + right@,
{
    let mut out = left.to_owned();
    out.append(right);
    out
}

/// `String::push`: appends one character at the end.
#[verifier::external_body]
pub(crate) fn push_char(s: &mut String, c: char)
    ensures
        final(s)@ == old(s)@.push(c),
{
    s.push(c)
}

/// What `str::to_lowercase` gives for a string: Unicode's default lowercase
/// mapping, character by character, which depends on the text alone.
pub uninterp spec fn lowercase_spec(s: Seq<char>) -> Seq<char>;

/// `str::to_lowercase`. The contract names the result; the mapping tables
/// themselves are not restated here.
#[verifier::external_body]
pub(crate) fn to_lowercase(s: &str) -> (result: String)
    ensures
        result@ == lowercase_spec(s@),
{
    s.to_lowercase()
}

/// Whether `char::is_alphanumeric` holds of a character (Unicode
/// `Alphabetic` or `Numeric`).
pub uninterp spec fn alphanumeric_spec(c: char) -> bool;

/// `char::is_alphanumeric`. The contract names the result; the Unicode
/// property tables are not restated here.
#[verifier::external_body]
pub(crate) fn is_alphanumeric(c: char) -> (result: bool)
    ensures
        result == alphanumeric_spec(c),
{
    c.is_alphanumeric()
}

/// `c` with ASCII `A`..`Z` mapped to `a`..`z`; every other character kept.
pub open spec fn ascii_lower_char(c: char) -> char {
    if 'A' <= c && c <= 'Z' {
        ((c as u32) + 32) as char
    } else {
        c
    }
}

/// `s` with its ASCII letters lowercased, as `str::to_ascii_lowercase` does.
pub open spec fn ascii_lowercase_spec(s: Seq<char>) -> Seq<char> {
    s.map_values(|c: char| ascii_lower_char(c))
}

/// The ASCII-lowercased copy of `s`.
pub fn ascii_lowercase(s: &str) -> (result: String)
    ensures
        result@ == ascii_lowercase_spec(s@),
{
    let n = char_len(s);
    let mut out = String::new();
    let mut i: usize = 0;
    while i < n
        invariant
            n == s@.len(),
            i <= n,
            out@ == ascii_lowercase_spec(s@.subrange(0, i as int)),
        decreases n - i,
    {
        let c = char_at(s, i);
        let lc = if 'A' <= c && c <= 'Z' {
            let b = (c as u8) + 32;
            assert(b as u32 == (c as u32) + 32);
            b as char
        } else {
            c
        };
        assert(lc == ascii_lower_char(c));
        push_char(&mut out, lc);
        assert(s@.subrange(0, i + 1) =~= s@.subrange(0, i as int).push(c));
        assert(ascii_lowercase_spec(s@.subrange(0, i + 1)) =~= ascii_lowercase_spec(s@.subrange(0, i as int)).push(lc));
        i += 1;
    }
    assert(s@.subrange(0, n as int) =~= s@);
    out
}

/// The character at position `i`.
pub fn char_at(s: &str, i: usize) -> (c: char)
    requires
        i < s@.len(),
    ensures
        c == s@[i as int],
{
    s.get_char(i)
}

/// The number of characters of `s`.
pub fn char_len(s: &str) -> (n: usize)
    ensures
        n == s@.len(),
{
    s.unicode_len()
}

/// Characters `from..to` of `s`.
pub fn char_slice(s: &str, from: usize, to: usize) -> (result: &str)
    requires
        from <= to <= s@.len(),
    ensures
        result@ == s@.subrange(from as int, to as int),
{
    s.substring_char(from, to)
}

/// The Unicode `White_Space` property, which `char::is_whitespace` implements.
pub open spec fn is_ws(c: char) -> bool {
    let v = c as u32;
    (0x9 <= v && v <= 0xd) || v == 0x20 || v == 0x85 || v == 0xa0 || v == 0x1680 || (0x2000
        <= v && v <= 0x200a) || v == 0x2028 || v == 0x2029 || v == 0x202f || v == 0x205f || v
        == 0x3000
}

/// `char::is_whitespace`.
pub fn is_whitespace(c: char) -> (result: bool)
    ensures
        result == is_ws(c),
{
    let v = c as u32;
    (0x9 <= v && v <= 0xd) || v == 0x20 || v == 0x85 || v == 0xa0 || v == 0x1680 || (0x2000
        <= v && v <= 0x200a) || v == 0x2028 || v == 0x2029 || v == 0x202f || v == 0x205f || v
        == 0x3000
}

/// Every character of `s` is whitespace (so `s.trim()` is empty).
pub open spec fn all_ws(s: Seq<char>) -> bool {
    forall|i: int| 0 <= i < s.len() ==> is_ws(#[trigger] s[i])
}

/// `s.trim().is_empty()`.
pub fn is_blank(s: &str) -> (result: bool)
    ensures
        result == all_ws(s@),
{
    let n = char_len(s);
    let mut i: usize = 0;
    while i < n
        invariant
            n == s@.len(),
            i <= n,
            forall|k: int| 0 <= k < i ==> is_ws(#[trigger] s@[k]),
        decreases n - i,
    {
        if !is_whitespace(char_at(s, i)) {
            return false;
        }
        i += 1;
    }
    true
}

/// Number of leading whitespace characters.
pub open spec fn lead_ws(s: Seq<char>) -> nat
    decreases s.len(),
{
    if s.len() > 0 && is_ws(s[0]) {
        1 + lead_ws(s.drop_first())
    } else {
        0
    }
}

/// Number of trailing whitespace characters.
pub open spec fn trail_ws(s: Seq<char>) -> nat
    decreases s.len(),
{
    if s.len() > 0 && is_ws(s.last()) {
        1 + trail_ws(s.drop_last())
    } else {
        0
    }
}

/// `str::trim`: the string without leading and trailing whitespace.
pub open spec fn trim_spec(s: Seq<char>) -> Seq<char> {
    let t = s.subrange(lead_ws(s) as int, s.len() as int);
    t.subrange(0, t.len() - trail_ws(t))
}

pub proof fn lemma_lead_ws_bound(s: Seq<char>)
    ensures
        lead_ws(s) <= s.len(),
        lead_ws(s) < s.len() ==> !is_ws(s[lead_ws(s) as int]),
        forall|k: int| 0 <= k < lead_ws(s) ==> is_ws(#[trigger] s[k]),
    decreases s.len(),
{
    if s.len() > 0 && is_ws(s[0]) {
        lemma_lead_ws_bound(s.drop_first());
        assert forall|k: int| 0 <= k < lead_ws(s) implies is_ws(#[trigger] s[k]) by {
            if k > 0 {
                assert(s[k] == s.drop_first()[k - 1]);
            }
        }
    }
}

pub proof fn lemma_trail_ws_bound(s: Seq<char>)
    ensures
        trail_ws(s) <= s.len(),
        trail_ws(s) < s.len() ==> !is_ws(s[s.len() - 1 - trail_ws(s)]),
        forall|k: int| s.len() - trail_ws(s) <= k < s.len() ==> is_ws(#[trigger] s[k]),
    decreases s.len(),
{
    if s.len() > 0 && is_ws(s.last()) {
        lemma_trail_ws_bound(s.drop_last());
        assert forall|k: int| s.len() - trail_ws(s) <= k < s.len() implies is_ws(
            #[trigger] s[k],
        ) by {
            if k < s.len() - 1 {
                assert(s[k] == s.drop_last()[k]);
            }
        }
    }
}

/// Counting leading whitespace from a position agrees with the recursive count.
pub proof fn lemma_lead_ws_from(s: Seq<char>, i: int)
    requires
        0 <= i <= s.len(),
        forall|k: int| 0 <= k < i ==> is_ws(#[trigger] s[k]),
    ensures
        lead_ws(s) == i + lead_ws(s.subrange(i, s.len() as int)),
    decreases i,
{
    if i > 0 {
        assert(is_ws(s[0]));
        let d = s.drop_first();
        assert forall|k: int| 0 <= k < i - 1 implies is_ws(#[trigger] d[k]) by {
            assert(d[k] == s[k + 1]);
        }
        lemma_lead_ws_from(d, i - 1);
        assert(d.subrange(i - 1, d.len() as int) =~= s.subrange(i, s.len() as int));
    } else {
        assert(s.subrange(0, s.len() as int) =~= s);
    }
}

pub proof fn lemma_trail_ws_from(s: Seq<char>, j: int)
    requires
        0 <= j <= s.len(),
        forall|k: int| j <= k < s.len() ==> is_ws(#[trigger] s[k]),
    ensures
        trail_ws(s) == (s.len() - j) + trail_ws(s.subrange(0, j)),
    decreases s.len() - j,
{
    if j < s.len() {
        assert(is_ws(s.last()));
        let d = s.drop_last();
        assert forall|k: int| j <= k < d.len() implies is_ws(#[trigger] d[k]) by {
            assert(d[k] == s[k]);
        }
        lemma_trail_ws_from(d, j);
        assert(d.subrange(0, j) =~= s.subrange(0, j));
    } else {
        assert(s.subrange(0, s.len() as int) =~= s);
    }
}

/// `str::trim`, returning an owned string.
pub fn trim(s: &str) -> (result: String)
    ensures
        result@ == trim_spec(s@),
{
    let n = char_len(s);
    let mut start: usize = 0;
    while start < n && !is_whitespace(char_at(s, start)) == false
        invariant
            n == s@.len(),
            start <= n,
            forall|k: int| 0 <= k < start ==> is_ws(#[trigger] s@[k]),
        decreases n - start,
    {
        start += 1;
    }
    proof {
        lemma_lead_ws_from(s@, start as int);
        let rest = s@.subrange(start as int, n as int);
        if start < n {
            assert(rest[0] == s@[start as int]);
        }
        assert(lead_ws(rest) == 0);
    }
    let ghost t = s@.subrange(start as int, n as int);
    let mut end: usize = n;
    while end > start && is_whitespace(char_at(s, end - 1))
        invariant
            n == s@.len(),
            start <= end <= n,
            t == s@.subrange(start as int, n as int),
            forall|k: int| end <= k < n ==> is_ws(#[trigger] s@[k]),
        decreases end - start,
    {
        end -= 1;
    }
    proof {
        let j = (end - start) as int;
        assert forall|k: int| j <= k < t.len() implies is_ws(#[trigger] t[k]) by {
            assert(t[k] == s@[k + start]);
        }
        lemma_trail_ws_from(t, j);
        let u = t.subrange(0, j);
        if j > 0 {
            assert(u.last() == s@[end - 1]);
        }
        assert(trail_ws(u) == 0);
        assert(t.subrange(0, t.len() - trail_ws(t)) =~= s@.subrange(start as int, end as int));
    }
    owned(char_slice(s, start, end))
}

/// ASCII decimal digits.
pub open spec fn is_digit(c: char) -> bool {
    '0' <= c && c <= '9'
}

/// The value of a sequence of decimal digits.
pub open spec fn digits_value(s: Seq<char>) -> nat
    decreases s.len(),
{
    if s.len() == 0 {
        0
    } else {
        digits_value(s.drop_last()) * 10 + ((s.last() as u32) - ('0' as u32)) as nat
    }
}

/// What `str::parse::<usize>` accepts: an optional `+`, then one or more ASCII
/// digits whose value fits in a `usize`.
pub open spec fn parse_usize_spec(s: Seq<char>) -> Option<usize> {
    let d = strip_plus(s);
    if d.len() > 0 && all_digits(d) && digits_value(d) <= usize::MAX {
        Some(digits_value(d) as usize)
    } else {
        None
    }
}

/// The sequence without one leading `+`, if it has one.
pub open spec fn strip_plus(s: Seq<char>) -> Seq<char> {
    if s.len() > 0 && s[0] == '+' {
        s.drop_first()
    } else {
        s
    }
}

pub open spec fn all_digits(d: Seq<char>) -> bool {
    forall|i: int| 0 <= i < d.len() ==> is_digit(#[trigger] d[i])
}

/// `str::parse::<usize>`, yielding `None` where it yields an error.
pub fn parse_usize(s: &str) -> (result: Option<usize>)
    ensures
        result == parse_usize_spec(s@),
{
    let n = char_len(s);
    let mut i: usize = 0;
    if n > 0 && char_at(s, 0) == '+' {
        i = 1;
    }
    let ghost d = strip_plus(s@);
    assert(d =~= s@.subrange(i as int, n as int));
    if i == n {
        return None;
    }
    let mut value: usize = 0;
    let mut k: usize = i;
    while k < n
        invariant
            n == s@.len(),
            i <= k <= n,
            d =~= s@.subrange(i as int, n as int),
            d == strip_plus(s@),
            forall|m: int| 0 <= m < k - i ==> is_digit(#[trigger] d[m]),
            value == digits_value(d.subrange(0, k - i)),
        decreases n - k,
    {
        let c = char_at(s, k);
        assert(d[k - i] == c);
        if !('0' <= c && c <= '9') {
            assert(!is_digit(d[k - i]));
            return None;
        }
        let digit = (c as u32 - '0' as u32) as usize;
        assert(d.subrange(0, k + 1 - i).drop_last() =~= d.subrange(0, k - i));
        if value > (usize::MAX - digit) / 10 {
            proof {
                assert(digits_value(d.subrange(0, k + 1 - i)) == value * 10 + digit) by {
                    assert(d.subrange(0, k + 1 - i).last() == c);
                }
                assert(value * 10 + digit > usize::MAX) by (nonlinear_arith)
                    requires
                        value > (usize::MAX - digit) / 10,
                        digit <= 9,
                ;
                if all_digits(d) {
                    lemma_digits_value_monotone(d, (k + 1 - i) as int);
                }
            }
            return None;
        }
        assert(value * 10 + digit <= usize::MAX) by (nonlinear_arith)
            requires
                value <= (usize::MAX - digit) / 10,
                digit <= 9,
        ;
        proof {
            assert(d.subrange(0, k + 1 - i).last() == c);
        }
        value = value * 10 + digit;
        k += 1;
    }
    assert(d.subrange(0, d.len() as int) =~= d);
    Some(value)
}

/// A digit prefix never has a larger value than the whole digit string.
proof fn lemma_digits_value_monotone(d: Seq<char>, m: int)
    requires
        0 <= m <= d.len(),
        forall|x: int| 0 <= x < d.len() ==> is_digit(#[trigger] d[x]),
    ensures
        digits_value(d.subrange(0, m)) <= digits_value(d),
    decreases d.len() - m,
{
    if m < d.len() {
        let dl = d.drop_last();
        assert forall|x: int| 0 <= x < dl.len() implies is_digit(#[trigger] dl[x]) by {
            assert(dl[x] == d[x]);
        }
        lemma_digits_value_monotone(dl, m);
        assert(dl.subrange(0, m) =~= d.subrange(0, m));
    } else {
        assert(d.subrange(0, m) =~= d);
    }
}

/// Decimal digits of a natural number, most significant first, no padding.
pub open spec fn decimal(n: nat) -> Seq<char>
    decreases n,
{
    if n < 10 {
        seq![digit_char(n)]
    } else {
        decimal(n / 10).push(digit_char(n % 10))
    }
}

pub open spec fn digit_char(d: nat) -> char {
    (('0' as u32) + d) as char
}

proof fn lemma_digit_char(d: nat)
    requires
        d < 10,
    ensures
        digit_char(d) as u32 == 48 + d,
{
}

/// Decimal renderings are one character long exactly below ten, and never
/// start with `0` for a positive number.
pub proof fn lemma_decimal_shape(n: nat)
    ensures
        decimal(n).len() >= 1,
        (decimal(n).len() == 1) == (n < 10),
        n >= 1 ==> decimal(n)[0] != '0',
        decimal(n)[decimal(n).len() - 1] == digit_char(n % 10),
    decreases n,
{
    if n >= 10 {
        lemma_decimal_shape(n / 10);
        assert(decimal(n)[0] == decimal(n / 10)[0]);
    } else {
        lemma_digit_char(n);
    }
}

/// Different numbers have different decimal renderings.
pub proof fn lemma_decimal_injective(n: nat, m: nat)
    requires
        decimal(n) == decimal(m),
    ensures
        n == m,
    decreases n,
{
    lemma_decimal_shape(n);
    lemma_decimal_shape(m);
    let dn = decimal(n);
    lemma_digit_char(n % 10);
    lemma_digit_char(m % 10);
    assert(n % 10 == m % 10);
    if n >= 10 && m >= 10 {
        assert(decimal(n / 10) =~= dn.drop_last());
        assert(decimal(m / 10) =~= decimal(m).drop_last());
        lemma_decimal_injective(n / 10, m / 10);
    }
}

/// Zero-padding to a fixed width keeps renderings distinct.
pub proof fn lemma_decimal_padded_injective(n: nat, m: nat, width: nat)
    requires
        decimal_padded(n, width) == decimal_padded(m, width),
    ensures
        n == m,
{
    lemma_decimal_shape(n);
    lemma_decimal_shape(m);
    let dn = decimal(n);
    let dm = decimal(m);
    let pn = decimal_padded(n, width);
    if dn.len() >= width && dm.len() >= width {
        lemma_decimal_injective(n, m);
    } else if dn.len() < width && dm.len() < width {
        assert(pn.len() == width);
        let k = (width - dn.len()) as int;
        let j = (width - dm.len()) as int;
        if k == j {
            assert(dn =~= pn.subrange(k, pn.len() as int));
            assert(dm =~= decimal_padded(m, width).subrange(j, pn.len() as int));
            lemma_decimal_injective(n, m);
        } else if k < j {
            assert(pn[k] == dn[0]);
            assert(decimal_padded(m, width)[k] == '0');
            if n == 0 {
                assert(dn[0] == digit_char(0));
                lemma_digit_char(0);
            }
            lemma_digit_char(0);
            assert(n >= 1 || dn.len() == 1);
            assert(dn.len() > dm.len());
        } else {
            assert(decimal_padded(m, width)[j] == dm[0]);
            assert(pn[j] == '0');
            assert(dm.len() > dn.len());
        }
    } else if dn.len() < width {
        assert(pn[0] == '0');
        assert(decimal_padded(m, width)[0] == dm[0]);
        assert(dm.len() >= width);
        assert(m >= 10 || dm.len() == 1);
    } else {
        assert(decimal_padded(m, width)[0] == '0');
        assert(pn[0] == dn[0]);
        assert(n >= 10 || dn.len() == 1);
    }
}

/// Decimal digits of `n`, left-padded with zeros to at least `width` characters
/// (the `{:0width$}` format).
pub open spec fn decimal_padded(n: nat, width: nat) -> Seq<char> {
    let d = decimal(n);
    if d.len() >= width {
        d
    } else {
        Seq::new((width - d.len()) as nat, |_i: int| '0') + d
    }
}

/// `n.to_string()` for a `u64`.
pub fn u64_to_decimal(n: u64) -> (result: String)
    ensures
        result@ == decimal(n as nat),
    decreases n,
{
    if n < 10 {
        let mut s = String::new();
        push_char(&mut s, ((48u32 + n as u32) as u8) as char);
        proof {
            assert(digit_char(n as nat) == ((48u32 + n as u32) as u8) as char);
        }
        s
    } else {
        let mut s = u64_to_decimal(n / 10);
        let d = n % 10;
        push_char(&mut s, ((48u32 + d as u32) as u8) as char);
        s
    }
}

/// `format!("{:0width$}", n)` for a `u64`.
pub fn u64_to_padded_decimal(n: u64, width: usize) -> (result: String)
    ensures
        result@ == decimal_padded(n as nat, width as nat),
{
    let digits = u64_to_decimal(n);
    let len = char_len(digits.as_str());
    if len >= width {
        return digits;
    }
    let mut out = String::new();
    let mut i: usize = 0;
    while i < width - len
        invariant
            len < width,
            i <= width - len,
            out@ == Seq::new(i as nat, |_k: int| '0'),
        decreases width - len - i,
    {
        push_char(&mut out, '0');
        i += 1;
        assert(out@ =~= Seq::new(i as nat, |_k: int| '0'));
    }
    out.append(digits.as_str());
    out
}

pub open spec fn hex_digit(d: u8) -> char {
    if d < 10 {
        ((48 + d) as u8) as char
    } else {
        ((87 + d) as u8) as char
    }
}

/// Lowercase hexadecimal rendering of bytes (the `{:x}` format of a digest).
pub open spec fn hex_lower(bytes: Seq<u8>) -> Seq<char>
    decreases bytes.len(),
{
    if bytes.len() == 0 {
        seq![]
    } else {
        hex_lower(bytes.drop_last()).push(hex_digit(bytes.last() / 16)).push(
            hex_digit(bytes.last() % 16),
        )
    }
}

/// Lowercase hexadecimal rendering of bytes.
pub fn to_hex_lower(bytes: &[u8]) -> (result: String)
    ensures
        result@ == hex_lower(bytes@),
{
    let mut out = String::new();
    let mut i: usize = 0;
    while i < bytes.len()
        invariant
            i <= bytes@.len(),
            out@ == hex_lower(bytes@.subrange(0, i as int)),
        decreases bytes@.len() - i,
    {
        let b = bytes[i];
        let hi = b / 16;
        let lo = b % 16;
        let hc = if hi < 10 {
            (48 + hi) as char
        } else {
            (87 + hi) as char
        };
        let lc = if lo < 10 {
            (48 + lo) as char
        } else {
            (87 + lo) as char
        };
        push_char(&mut out, hc);
        push_char(&mut out, lc);
        proof {
            let p = bytes@.subrange(0, i + 1);
            assert(p.drop_last() =~= bytes@.subrange(0, i as int));
            assert(p.last() == b);
        }
        i += 1;
    }
    assert(bytes@.subrange(0, bytes@.len() as int) =~= bytes@);
    out
}

/// Decimal rendering of an integer, with a leading `-` when negative.
pub open spec fn signed_decimal(n: int) -> Seq<char> {
    if n < 0 {
        seq!['-'] + decimal((-n) as nat)
    } else {
        decimal(n as nat)
    }
}

/// `n.to_string()` for an `i64`.
pub fn i64_to_decimal(n: i64) -> (result: String)
    ensures
        result@ == signed_decimal(n as int),
{
    if n < 0 {
        let magnitude: u64 = if n == i64::MIN {
            9223372036854775808u64
        } else {
            (-n) as u64
        };
        let mut out = String::new();
        push_char(&mut out, '-');
        let digits = u64_to_decimal(magnitude);
        out.append(digits.as_str());
        out
    } else {
        u64_to_decimal(n as u64)
    }
}

/// `s` begins with `prefix`.
pub open spec fn starts_with_spec(s: Seq<char>, prefix: Seq<char>) -> bool {
    prefix.len() <= s.len() && s.subrange(0, prefix.len() as int) == prefix
}

/// `str::starts_with` for a string prefix.
pub fn starts_with(s: &str, prefix: &str) -> (result: bool)
    ensures
        result == starts_with_spec(s@, prefix@),
{
    let n = char_len(s);
    let p = char_len(prefix);
    if p > n {
        return false;
    }
    str_eq(char_slice(s, 0, p), prefix)
}

/// `s` contains `c`.
pub fn contains_char(s: &str, c: char) -> (result: bool)
    ensures
        result == s@.contains(c),
{
    let n = char_len(s);
    let mut i: usize = 0;
    while i < n
        invariant
            n == s@.len(),
            i <= n,
            forall|k: int| 0 <= k < i ==> s@[k] != c,
        decreases n - i,
    {
        if char_at(s, i) == c {
            return true;
        }
        i += 1;
    }
    false
}

/// `s` contains `needle` as a contiguous run of characters.
pub open spec fn contains_seq(s: Seq<char>, needle: Seq<char>) -> bool {
    exists|i: int| 0 <= i && i + needle.len() <= s.len() && #[trigger] s.subrange(i, i + needle.len()) == needle
}

/// `str::contains` for a string needle.
pub fn contains_str_in(s: &str, needle: &str) -> (result: bool)
    ensures
        result == contains_seq(s@, needle@),
{
    let n = char_len(s);
    let m = char_len(needle);
    if m > n {
        return false;
    }
    let mut i: usize = 0;
    loop
        invariant
            n == s@.len(),
            m == needle@.len(),
            m <= n,
            i <= n - m,
            forall|k: int| 0 <= k < i ==> #[trigger] s@.subrange(k, k + m) != needle@,
        decreases n - m - i,
    {
        if str_eq(char_slice(s, i, i + m), needle) {
            return true;
        }
        if i == n - m {
            return false;
        }
        i += 1;
    }
}

/// What `str::parse::<u64>` accepts: an optional `+`, then one or more ASCII
/// digits whose value fits in a `u64`.
pub open spec fn parse_u64_spec(s: Seq<char>) -> Option<u64> {
    let d = strip_plus(s);
    if d.len() > 0 && all_digits(d) && digits_value(d) <= u64::MAX {
        Some(digits_value(d) as u64)
    } else {
        None
    }
}

/// `str::parse::<u64>`, yielding `None` where it yields an error.
pub fn parse_u64(s: &str) -> (result: Option<u64>)
    ensures
        result == parse_u64_spec(s@),
{
    let n = char_len(s);
    let mut i: usize = 0;
    if n > 0 && char_at(s, 0) == '+' {
        i = 1;
    }
    let ghost d = strip_plus(s@);
    assert(d =~= s@.subrange(i as int, n as int));
    if i == n {
        return None;
    }
    let mut value: u64 = 0;
    let mut k: usize = i;
    while k < n
        invariant
            n == s@.len(),
            i <= k <= n,
            d =~= s@.subrange(i as int, n as int),
            d == strip_plus(s@),
            forall|m: int| 0 <= m < k - i ==> is_digit(#[trigger] d[m]),
            value == digits_value(d.subrange(0, k - i)),
        decreases n - k,
    {
        let c = char_at(s, k);
        assert(d[k - i] == c);
        if !('0' <= c && c <= '9') {
            assert(!is_digit(d[k - i]));
            return None;
        }
        let digit = (c as u32 - '0' as u32) as u64;
        assert(d.subrange(0, k + 1 - i).drop_last() =~= d.subrange(0, k - i));
        if value > (u64::MAX - digit) / 10 {
            proof {
                assert(digits_value(d.subrange(0, k + 1 - i)) == value * 10 + digit) by {
                    assert(d.subrange(0, k + 1 - i).last() == c);
                }
                assert(value * 10 + digit > u64::MAX) by (nonlinear_arith)
                    requires
                        value > (u64::MAX - digit) / 10,
                        digit <= 9,
                ;
                if all_digits(d) {
                    lemma_digits_value_monotone(d, (k + 1 - i) as int);
                }
            }
            return None;
        }
        assert(value * 10 + digit <= u64::MAX) by (nonlinear_arith)
            requires
                value <= (u64::MAX - digit) / 10,
                digit <= 9,
        ;
        proof {
            assert(d.subrange(0, k + 1 - i).last() == c);
        }
        value = value * 10 + digit;
        k += 1;
    }
    assert(d.subrange(0, d.len() as int) =~= d);
    Some(value)
}

} // verus!
