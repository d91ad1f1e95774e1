//! Byte-level helpers shared by the parsers: digits, integers as std reads them,
//! and decimal / hexadecimal text.
use vstd::prelude::*;
use vstd::string::StringSliceAdditionalSpecFns;
use vstd::utf8::{
    encode_scalar, encode_utf8, encode_utf8_valid_utf8, is_char_boundary, is_char_boundary_iff_not_is_continuation_byte,
    is_char_boundary_start_end_of_seq, length_of_first_scalar, pop_first_scalar, valid_utf8,
};

verus! {

/// An ASCII decimal digit.
pub open spec fn is_dec_digit(b: u8) -> bool {
    48 <= b <= 57
}

/// An ASCII hexadecimal digit, either case.
pub open spec fn is_hex_digit(b: u8) -> bool {
    is_dec_digit(b) || (65 <= b <= 70) || (97 <= b <= 102)
}

/// The value of a decimal or hexadecimal digit.
pub open spec fn digit_value(b: u8) -> int {
    if is_dec_digit(b) {
        b - 48
    } else if 65 <= b <= 70 {
        b - 55
    } else if 97 <= b <= 102 {
        b - 87
    } else {
        0
    }
}

/// A digit of the radix (10 or 16).
pub open spec fn is_radix_digit(b: u8, radix: int) -> bool {
    if radix == 16 {
        is_hex_digit(b)
    } else {
        is_dec_digit(b)
    }
}

pub open spec fn all_radix_digits(s: Seq<u8>, radix: int) -> bool {
    forall|i: int| 0 <= i < s.len() ==> is_radix_digit(#[trigger] s[i], radix)
}

pub open spec fn all_dec_digits(s: Seq<u8>) -> bool {
    all_radix_digits(s, 10)
}

/// The number that a string of digits writes in the radix.
pub open spec fn digits_value(s: Seq<u8>, radix: int) -> int
    decreases s.len(),
{
    if s.len() == 0 {
        0
    } else {
        digits_value(s.drop_last(), radix) * radix + digit_value(s.last())
    }
}

/// The integer that std's integer parsing (`str::parse`, `from_str_radix`) reads from the bytes:
/// an optional `+` (or `-` for a signed type), then one or more digits of the radix, with the
/// value in `[min, max]`; `None` where std returns an error.
pub open spec fn parse_int_spec(s: Seq<u8>, radix: int, signed: bool, min: int, max: int) -> Option<int> {
    if s.len() == 0 {
        None
    } else {
        let neg = signed && s[0] == 45u8;
        let digits = if s[0] == 43u8 || neg {
            s.drop_first()
        } else {
            s
        };
        if digits.len() == 0 || !all_radix_digits(digits, radix) {
            None
        } else {
            let v = if neg {
                -digits_value(digits, radix)
            } else {
                digits_value(digits, radix)
            };
            if min <= v <= max {
                Some(v)
            } else {
                None
            }
        }
    }
}

pub proof fn lemma_digits_value_nonneg(s: Seq<u8>, radix: int)
    requires
        radix == 10 || radix == 16,
        all_radix_digits(s, radix),
    ensures
        digits_value(s, radix) >= 0,
    decreases s.len(),
{
    if s.len() > 0 {
        lemma_digits_value_nonneg(s.drop_last(), radix);
    }
}

/// A prefix of a string of digits writes no larger a number than the whole string.
pub proof fn lemma_digits_value_prefix(s: Seq<u8>, k: int, radix: int)
    requires
        radix == 10 || radix == 16,
        all_radix_digits(s, radix),
        0 <= k <= s.len(),
    ensures
        digits_value(s.take(k), radix) <= digits_value(s, radix),
    decreases s.len(),
{
    if k < s.len() {
        let p = s.drop_last();
        lemma_digits_value_prefix(p, k, radix);
        lemma_digits_value_nonneg(p, radix);
        assert(p.take(k) =~= s.take(k));
        assert(digits_value(p, radix) * radix >= digits_value(p, radix)) by (nonlinear_arith)
            requires
                digits_value(p, radix) >= 0,
                radix >= 2,
        ;
    } else {
        assert(s.take(k) =~= s);
    }
}

fn is_radix_digit_exec(b: u8, radix: u32) -> (r: bool)
    requires
        radix == 10 || radix == 16,
    ensures
        r == is_radix_digit(b, radix as int),
{
    if radix == 16 {
        (48 <= b && b <= 57) || (65 <= b && b <= 70) || (97 <= b && b <= 102)
    } else {
        48 <= b && b <= 57
    }
}

fn digit_value_exec(b: u8) -> (r: u8)
    requires
        is_hex_digit(b),
    ensures
        r as int == digit_value(b),
        r < 16,
{
    if 48 <= b && b <= 57 {
        b - 48
    } else if 65 <= b && b <= 70 {
        b - 55
    } else {
        b - 87
    }
}

/// Reads an integer from `s[start..end]` as std does for integer types of range `[min, max]`.
#[verifier::loop_isolation(false)]
pub fn parse_int(s: &[u8], start: usize, end: usize, radix: u32, signed: bool, min: i64, max: i64) -> (r: Option<i64>)
    requires
        start <= end <= s@.len(),
        radix == 10 || radix == 16,
        -0x1_0000_0000 <= min,
        max <= 0x1_0000_0000,
    ensures
        match parse_int_spec(s@.subrange(start as int, end as int), radix as int, signed, min as int, max as int) {
            Some(v) => r == Some(v as i64),
            None => r is None,
        },
{
    let ghost t = s@.subrange(start as int, end as int);
    if start == end {
        return None;
    }
    let first = s[start];
    let neg = signed && first == 45u8;
    let mut i = if first == 43u8 || neg { start + 1 } else { start };
    let ghost d = if first == 43u8 || neg { t.drop_first() } else { t };
    assert(t[0] == first);
    assert(d =~= s@.subrange(i as int, end as int));
    if i == end {
        return None;
    }
    let digits_start = i;
    let mut acc: u64 = 0;
    while i < end
        invariant
            digits_start <= i <= end <= s@.len(),
            d =~= s@.subrange(digits_start as int, end as int),
            radix == 10 || radix == 16,
            all_radix_digits(d.take(i - digits_start), radix as int),
            acc as int == digits_value(d.take(i - digits_start), radix as int),
            acc <= 0x2_0000_0000,
        decreases end - i,
    {
        let b = s[i];
        if !is_radix_digit_exec(b, radix) {
            assert(!is_radix_digit(d[i - digits_start], radix as int));
            assert(!all_radix_digits(d, radix as int));
            return None;
        }
        let v = digit_value_exec(b);
        let ghost k = i - digits_start;
        assert(d.take(k + 1).drop_last() =~= d.take(k));
        assert(d.take(k + 1).last() == b);
        assert(acc * (radix as u64) + (v as u64) <= 0x2_0000_0000 * 16 + 16) by (nonlinear_arith)
            requires acc <= 0x2_0000_0000, radix <= 16, v < 16;
        let next = acc * (radix as u64) + (v as u64);
        i = i + 1;
        if next > 0x2_0000_0000 {
            // Keep reading to learn whether every byte is a digit; the value is out of range.
            let mut j = i;
            while j < end
                invariant
                    digits_start <= j <= end <= s@.len(),
                    d =~= s@.subrange(digits_start as int, end as int),
                    radix == 10 || radix == 16,
                    all_radix_digits(d.take(j - digits_start), radix as int),
                decreases end - j,
            {
                if !is_radix_digit_exec(s[j], radix) {
                    assert(!is_radix_digit(d[j - digits_start], radix as int));
                    assert(!all_radix_digits(d, radix as int));
                    return None;
                }
                assert(all_radix_digits(d.take(j - digits_start + 1), radix as int)) by {
                    assert forall|q: int| 0 <= q < j - digits_start + 1 implies is_radix_digit(
                        #[trigger] d.take(j - digits_start + 1)[q],
                        radix as int,
                    ) by {
                        if q < j - digits_start {
                            assert(d.take(j - digits_start)[q] == d[q]);
                        }
                    }
                }
                j = j + 1;
            }
            assert(d.take(end - digits_start) =~= d);
            proof {
                lemma_digits_value_prefix(d, (i - digits_start) as int, radix as int);
            }
            assert(digits_value(d, radix as int) > 0x2_0000_0000);
            return None;
        }
        assert(all_radix_digits(d.take(k + 1), radix as int)) by {
            assert forall|q: int| 0 <= q < k + 1 implies is_radix_digit(
                #[trigger] d.take(k + 1)[q],
                radix as int,
            ) by {
                if q < k {
                    assert(d.take(k)[q] == d[q]);
                }
            }
        }
        acc = next;
    }
    assert(d.take(end - digits_start) =~= d);
    let mag = acc as i64;
    let v: i64 = if neg { -mag } else { mag };
    if min <= v && v <= max {
        Some(v)
    } else {
        None
    }
}

/// Calls `String::push`, which appends the character to the string.
#[verifier::external_body]
pub(crate) fn push_char(s: &mut String, c: char)
    ensures
        final(s)@ == old(s)@.push(c),
{
    s.push(c);
}

/// The character of a digit below 16 (upper-case letters past 9).
pub open spec fn digit_char(d: int) -> char {
    if d < 10 {
        (48 + d) as char
    } else {
        (55 + d) as char
    }
}

/// The digits of `n` in the radix, most significant first, without leading zeros.
pub open spec fn radix_chars(n: nat, radix: nat) -> Seq<char>
    decreases n,
{
    if n < radix || radix < 2 {
        seq![digit_char(n as int)]
    } else {
        proof {
            assert(n / radix < n) by (nonlinear_arith)
                requires
                    n >= radix,
                    radix >= 2,
            ;
        }
        radix_chars(n / radix, radix).push(digit_char((n % radix) as int))
    }
}

/// The characters taken as bytes (each one below 256).
pub open spec fn char_bytes(s: Seq<char>) -> Seq<u8> {
    s.map_values(|c: char| (c as u32) as u8)
}

/// A digit character of the radix (10 or 16), letters upper-case.
pub open spec fn is_digit_char(c: char, radix: nat) -> bool {
    (48 <= c as u32 <= 57) || (radix == 16 && 65 <= c as u32 <= 70)
}

proof fn lemma_digit_char(d: int, radix: nat)
    requires
        0 <= d < radix,
        radix == 10 || radix == 16,
    ensures
        digit_char(d) as u32 == (if d < 10 { 48 + d } else { 55 + d }),
        (digit_char(d) as u32) as u8 == (if d < 10 { 48 + d } else { 55 + d }),
        is_digit_char(digit_char(d), radix),
        is_radix_digit((digit_char(d) as u32) as u8, radix as int),
        digit_value((digit_char(d) as u32) as u8) == d,
        d > 0 ==> digit_char(d) != '0',
{
}

/// Text of ASCII characters is encoded one byte per character.
pub proof fn lemma_encode_ascii(s: Seq<char>)
    requires
        forall|i: int| 0 <= i < s.len() ==> ((#[trigger] s[i]) as u32) < 128,
    ensures
        encode_utf8(s) == char_bytes(s),
    decreases s.len(),
{
    if s.len() > 0 {
        lemma_encode_ascii(s.drop_first());
        let c = s[0] as u32;
        assert(c < 128);
        assert((c & 0x7F) == c) by (bit_vector)
            requires
                c < 128,
        ;
        assert(encode_utf8(s) =~= char_bytes(s)) by {
            assert(encode_utf8(s) == encode_scalar(c) + encode_utf8(s.drop_first()));
            assert(encode_scalar(c) == seq![(c & 0x7F) as u8]);
            assert(char_bytes(s)[0] == c as u8);
            assert((c & 0x7F) as u8 == c as u8) by (bit_vector)
                requires
                    c < 128,
            ;
            assert(char_bytes(s.drop_first()) =~= char_bytes(s).drop_first());
        }
    }
}

/// The digits of a number: at least one, each a digit of the radix (upper-case letters), no
/// leading zero but for the number 0, and read as digits they give the number back.
pub proof fn radix_chars_read_back(n: nat, radix: nat)
    requires
        radix == 10 || radix == 16,
    ensures
        radix_chars(n, radix).len() >= 1,
        forall|i: int|
            0 <= i < radix_chars(n, radix).len() ==> is_digit_char(#[trigger] radix_chars(n, radix)[i], radix),
        n > 0 ==> radix_chars(n, radix)[0] != '0',
        encode_utf8(radix_chars(n, radix)) == char_bytes(radix_chars(n, radix)),
        all_radix_digits(char_bytes(radix_chars(n, radix)), radix as int),
        digits_value(char_bytes(radix_chars(n, radix)), radix as int) == n,
    decreases n,
{
    let s = radix_chars(n, radix);
    let b = char_bytes(s);
    if n < radix {
        lemma_digit_char(n as int, radix);
        assert(s == seq![digit_char(n as int)]);
        assert(b.drop_last().len() == 0);
        assert(b.last() == (digit_char(n as int) as u32) as u8);
        assert(digits_value(b.drop_last(), radix as int) == 0);
        assert(digits_value(b, radix as int) == 0 * radix + digit_value(b.last()));
    } else {
        let q = n / radix;
        let m = n % radix;
        assert(q < n && n == q * radix + m && m < radix && q >= 1) by {
            if radix == 10 {
                assert(n == (n / 10) * 10 + n % 10);
            } else {
                assert(n == (n / 16) * 16 + n % 16);
            }
        }
        radix_chars_read_back(q, radix);
        lemma_digit_char(m as int, radix);
        let p = radix_chars(q, radix);
        assert(s == p.push(digit_char(m as int)));
        assert(b.drop_last() =~= char_bytes(p));
        assert(b.last() == (digit_char(m as int) as u32) as u8);
        assert(digits_value(b, radix as int) == digits_value(b.drop_last(), radix as int) * radix
            + digit_value(b.last()));
        assert(digits_value(b, radix as int) == q * radix + m);
        assert(s[0] == p[0]);
        assert forall|i: int| 0 <= i < s.len() implies is_digit_char(#[trigger] s[i], radix) by {
            if i < p.len() {
                assert(s[i] == p[i]);
            }
        }
        assert forall|i: int| 0 <= i < b.len() implies is_radix_digit(#[trigger] b[i], radix as int) by {
            if i < p.len() {
                assert(b[i] == char_bytes(p)[i]);
            }
        }
    }
    assert forall|i: int| 0 <= i < s.len() implies ((#[trigger] s[i]) as u32) < 128 by {
        assert(is_digit_char(s[i], radix));
    }
    lemma_encode_ascii(s);
}

/// `s` preceded by as many '0' as make it `width` long.
pub open spec fn zero_padded(s: Seq<char>, width: nat) -> Seq<char> {
    if s.len() >= width {
        s
    } else {
        Seq::new((width - s.len()) as nat, |i: int| '0') + s
    }
}

/// The text of one digit.
pub fn digit_str(d: u64) -> (r: &'static str)
    requires
        d < 16,
    ensures
        r@ == seq![digit_char(d as int)],
{
    proof {
        reveal_strlit("0");
        reveal_strlit("1");
        reveal_strlit("2");
        reveal_strlit("3");
        reveal_strlit("4");
        reveal_strlit("5");
        reveal_strlit("6");
        reveal_strlit("7");
        reveal_strlit("8");
        reveal_strlit("9");
        reveal_strlit("A");
        reveal_strlit("B");
        reveal_strlit("C");
        reveal_strlit("D");
        reveal_strlit("E");
        reveal_strlit("F");
    }
    if d == 0 {
        "0"
    } else if d == 1 {
        "1"
    } else if d == 2 {
        "2"
    } else if d == 3 {
        "3"
    } else if d == 4 {
        "4"
    } else if d == 5 {
        "5"
    } else if d == 6 {
        "6"
    } else if d == 7 {
        "7"
    } else if d == 8 {
        "8"
    } else if d == 9 {
        "9"
    } else if d == 10 {
        "A"
    } else if d == 11 {
        "B"
    } else if d == 12 {
        "C"
    } else if d == 13 {
        "D"
    } else if d == 14 {
        "E"
    } else {
        "F"
    }
}

/// Appends the digits of `n` in the radix (10 or 16, upper-case).
pub fn push_radix(s: &mut String, n: u64, radix: u64)
    requires
        radix == 10 || radix == 16,
    ensures
        final(s)@ == old(s)@ + radix_chars(n as nat, radix as nat),
    decreases n,
{
    if n >= radix {
        push_radix(s, n / radix, radix);
    }
    s.append(digit_str(n % radix));
    proof {
        if n < radix {
            assert(n % radix == n);
        }
    }
}

/// The number of digits of `n` in the radix.
pub fn count_digits(n: u64, radix: u64) -> (r: u64)
    requires
        radix == 10 || radix == 16,
    ensures
        r as nat == radix_chars(n as nat, radix as nat).len(),
        1 <= r <= n + 1,
    decreases n,
{
    if n < radix {
        1
    } else {
        let k = count_digits(n / radix, radix);
        proof {
            assert(radix_chars(n as nat, radix as nat).len() == radix_chars((n / radix) as nat, radix as nat).len() + 1);
            assert(n / radix + 1 <= n) by (nonlinear_arith)
                requires
                    n >= radix,
                    radix >= 2,
            ;
        }
        k + 1
    }
}

/// Appends the digits of `n` in the radix, preceded by '0' up to `width` characters.
pub fn push_padded(s: &mut String, n: u64, radix: u64, width: u64)
    requires
        radix == 10 || radix == 16,
    ensures
        final(s)@ == old(s)@ + zero_padded(radix_chars(n as nat, radix as nat), width as nat),
{
    let k = count_digits(n, radix);
    let ghost start = s@;
    let mut i = k;
    proof {
        reveal_strlit("0");
    }
    while i < width
        invariant
            k <= i,
            i <= width || i == k,
            s@ =~= start + Seq::new((i - k) as nat, |q: int| '0'),
        decreases width - i,
    {
        proof {
            reveal_strlit("0");
        }
        s.append("0");
        i = i + 1;
    }
    push_radix(s, n, radix);
    proof {
        if k < width {
            assert(zero_padded(radix_chars(n as nat, radix as nat), width as nat) =~= Seq::new((width - k) as nat, |q: int| '0') + radix_chars(n as nat, radix as nat));
        } else {
            assert(s@ =~= start + radix_chars(n as nat, radix as nat));
        }
    }
}

/// An index at which a string may be cut: an end of it, or next to an ASCII byte.
pub open spec fn cut_ok(b: Seq<u8>, i: int) -> bool {
    i == 0 || i == b.len() || (0 <= i < b.len() && b[i] < 128) || (0 < i <= b.len() && b[i - 1]
        < 128)
}

proof fn lemma_boundary_after_ascii(b: Seq<u8>, k: int)
    requires
        valid_utf8(b),
        0 <= k < b.len(),
        is_char_boundary(b, k),
        b[k] < 128,
    ensures
        is_char_boundary(b, k + 1),
    decreases b.len(),
{
    if k == 0 {
        assert(length_of_first_scalar(b) == 1);
        assert(is_char_boundary(pop_first_scalar(b), 0));
    } else {
        let l = length_of_first_scalar(b);
        let p = pop_first_scalar(b);
        assert(valid_utf8(p));
        assert(is_char_boundary(p, k - l));
        assert(k - l >= 0);
        assert(p[k - l] == b[k]);
        lemma_boundary_after_ascii(p, k - l);
        assert(is_char_boundary(b, k + 1) == is_char_boundary(p, k + 1 - l));
    }
}

/// In valid UTF-8, an index next to an ASCII byte is a character boundary.
pub proof fn lemma_cut_boundary(b: Seq<u8>, i: int)
    requires
        valid_utf8(b),
        cut_ok(b, i),
    ensures
        is_char_boundary(b, i),
{
    if i == 0 {
    } else if i == b.len() {
        is_char_boundary_start_end_of_seq(b);
    } else if b[i] < 128 {
        is_char_boundary_iff_not_is_continuation_byte(b, i);
    } else {
        if i - 1 == 0 {
        } else {
            is_char_boundary_iff_not_is_continuation_byte(b, i - 1);
        }
        lemma_boundary_after_ascii(b, i - 1);
    }
}

/// The text of bytes `a..e` of `s`, cut next to ASCII bytes.
pub fn substring(s: &str, a: usize, e: usize) -> (r: String)
    requires
        a <= e <= s.spec_bytes().len(),
        cut_ok(s.spec_bytes(), a as int),
        cut_ok(s.spec_bytes(), e as int),
    ensures
        encode_utf8(r@) == s.spec_bytes().subrange(a as int, e as int),
{
    let ghost b = s.spec_bytes();
    proof {
        encode_utf8_valid_utf8(s@);
        lemma_cut_boundary(b, a as int);
    }
    let (_, rest) = s.split_at(a);
    let ghost rb = rest.spec_bytes();
    proof {
        assert(rb =~= b.subrange(a as int, b.len() as int));
        encode_utf8_valid_utf8(rest@);
        assert(cut_ok(rb, (e - a) as int)) by {
            if e < b.len() && b[e as int] < 128 {
                assert(rb[(e - a) as int] == b[e as int]);
            } else if e > a && e < b.len() {
                assert(rb[(e - a - 1) as int] == b[e - 1]);
            }
        }
        lemma_cut_boundary(rb, (e - a) as int);
    }
    let (mid, _) = rest.split_at(e - a);
    proof {
        assert(mid.spec_bytes() =~= b.subrange(a as int, e as int));
    }
    mid.to_owned()
}

} // verus!
