//! The comment field of a position report: words separated by spaces, each read as one
//! of the OGN comments (altitude, precision enhancement, identifier, climb rate, turning
//! rate, flight level) or kept as text.
use crate::aprs::report::{Comment, CommentView, Decimal, comments_view};
use crate::text::{cut_ok, digits_value, is_dec_digit, is_hex_digit, substring};
use vstd::prelude::*;
use vstd::string::StringSliceAdditionalSpecFns;
use vstd::utf8::encode_utf8;

verus! {

/// Separates the words of the comment field.
pub open spec fn is_sep(c: u8) -> bool {
    c == 32 || c == 10 || c == 13
}

/// The first index in `[i, e)` holding `x`, or `e`.
pub open spec fn find_byte(b: Seq<u8>, x: u8, i: int, e: int) -> int
    decreases e - i,
{
    if i >= e {
        e
    } else if b[i] == x {
        i
    } else {
        find_byte(b, x, i + 1, e)
    }
}

pub proof fn lemma_find_byte(b: Seq<u8>, x: u8, i: int, e: int)
    requires
        i <= e,
    ensures
        i <= find_byte(b, x, i, e) <= e,
        forall|q: int| i <= q < find_byte(b, x, i, e) ==> b[q] != x,
        find_byte(b, x, i, e) < e ==> b[find_byte(b, x, i, e)] == x,
    decreases e - i,
{
    if i < e && b[i] != x {
        lemma_find_byte(b, x, i + 1, e);
    }
}

pub fn find_byte_exec(b: &[u8], x: u8, i: usize, e: usize) -> (r: usize)
    requires
        i <= e <= b@.len(),
    ensures
        r == find_byte(b@, x, i as int, e as int),
        i <= r <= e,
{
    let mut k = i;
    while k < e
        invariant
            i <= k <= e <= b@.len(),
            find_byte(b@, x, i as int, e as int) == find_byte(b@, x, k as int, e as int),
        decreases e - k,
    {
        if b[k] == x {
            return k;
        }
        k = k + 1;
    }
    proof {
        lemma_find_byte(b@, x, i as int, e as int);
    }
    k
}

pub open spec fn all_dec(b: Seq<u8>, i: int, j: int) -> bool {
    forall|q: int| i <= q < j ==> is_dec_digit(#[trigger] b[q])
}

/// The number written by the decimal digits `b[i..j]`.
pub open spec fn dec_value(b: Seq<u8>, i: int, j: int) -> int {
    digits_value(b.subrange(i, j), 10)
}

pub open spec fn pow10(n: nat) -> nat
    decreases n,
{
    if n == 0 {
        1
    } else {
        10 * pow10((n - 1) as nat)
    }
}

proof fn lemma_pow10_mono(a: nat, c: nat)
    requires
        a <= c,
    ensures
        pow10(a) <= pow10(c),
    decreases c,
{
    if a < c {
        lemma_pow10_mono(a, (c - 1) as nat);
    }
}

/// A number in a comment: an optional sign, one to nine digits, and optionally a point
/// followed by one to nine digits.
pub open spec fn number_spec(b: Seq<u8>, a: int, e: int) -> Option<Decimal> {
    let signed = a < e && (b[a] == 45u8 || b[a] == 43u8);
    let k = if signed {
        a + 1
    } else {
        a
    };
    let p = find_byte(b, 46u8, k, e);
    let has_frac = p < e;
    let flen = if has_frac {
        e - p - 1
    } else {
        0
    };
    if 1 <= p - k <= 9 && all_dec(b, k, p) && (!has_frac || (1 <= flen <= 9 && all_dec(
        b,
        p + 1,
        e,
    ))) {
        Some(
            Decimal {
                negative: a < e && b[a] == 45u8,
                digits: (dec_value(b, k, p) * pow10(flen as nat) + if has_frac {
                    dec_value(b, p + 1, e)
                } else {
                    0
                }) as u64,
                scale: flen as u32,
            },
        )
    } else {
        None
    }
}

pub proof fn lemma_dec_value_step(b: Seq<u8>, i: int, j: int)
    requires
        0 <= i <= j < b.len(),
    ensures
        dec_value(b, i, j + 1) == dec_value(b, i, j) * 10 + (b[j] - 48) as int || !is_dec_digit(
            b[j],
        ),
{
    assert(b.subrange(i, j + 1).drop_last() =~= b.subrange(i, j));
}

/// Reads the decimal digits `b[i..j]` (at most nine of them), `None` if one is no digit.
fn read_digits(b: &[u8], i: usize, j: usize) -> (r: Option<u64>)
    requires
        i <= j <= b@.len(),
        j - i <= 9,
    ensures
        r is Some <==> all_dec(b@, i as int, j as int),
        r matches Some(v) ==> v == dec_value(b@, i as int, j as int) && v < pow10((j - i) as nat),
{
    let mut acc: u64 = 0;
    let mut q = i;
    assert(b@.subrange(i as int, i as int).len() == 0);
    proof {
        lemma_pow10_mono(0, 9);
    }
    while q < j
        invariant
            i <= q <= j <= b@.len(),
            j - i <= 9,
            all_dec(b@, i as int, q as int),
            acc == dec_value(b@, i as int, q as int),
            acc < pow10((q - i) as nat),
            pow10((q - i) as nat) <= pow10(9),
        decreases j - q,
    {
        let c = b[q];
        if !(48 <= c && c <= 57) {
            return None;
        }
        proof {
            lemma_dec_value_step(b@, i as int, q as int);
            lemma_pow10_mono((q + 1 - i) as nat, 9);
            reveal_with_fuel(pow10, 10);
        }
        acc = acc * 10 + (c - 48) as u64;
        q = q + 1;
    }
    Some(acc)
}

/// Reads a comment number from `b[a..e]`.
pub fn parse_number(b: &[u8], a: usize, e: usize) -> (r: Option<Decimal>)
    requires
        a <= e <= b@.len(),
    ensures
        r == number_spec(b@, a as int, e as int),
{
    let signed = a < e && (b[a] == 45u8 || b[a] == 43u8);
    let k = if signed { a + 1 } else { a };
    let p = find_byte_exec(b, 46u8, k, e);
    let has_frac = p < e;
    let flen = if has_frac { e - p - 1 } else { 0 };
    if p - k < 1 || p - k > 9 {
        return None;
    }
    if has_frac && (flen < 1 || flen > 9) {
        return None;
    }
    let ip = match read_digits(b, k, p) {
        Some(v) => v,
        None => return None,
    };
    let fp = if has_frac {
        match read_digits(b, p + 1, e) {
            Some(v) => v,
            None => return None,
        }
    } else {
        0
    };
    let mut scale: u64 = 1;
    let mut n: usize = 0;
    proof {
        lemma_pow10_mono(0, 9);
    }
    while n < flen
        invariant
            n <= flen <= 9,
            scale == pow10(n as nat),
            pow10(n as nat) <= pow10(9),
        decreases flen - n,
    {
        proof {
            lemma_pow10_mono((n + 1) as nat, 9);
            reveal_with_fuel(pow10, 10);
        }
        scale = scale * 10;
        n = n + 1;
    }
    proof {
        reveal_with_fuel(pow10, 10);
        assert(ip * scale + fp < 1_000_000_000 * 1_000_000_000 + 1_000_000_000) by (nonlinear_arith)
            requires
                ip < 1_000_000_000,
                scale <= 1_000_000_000,
                fp < 1_000_000_000,
        ;
    }
    Some(Decimal { negative: a < e && b[a] == 45u8, digits: ip * scale + fp, scale: flen as u32 })
}

/// The bytes `b[a..a+3]` are `x`, `y`, `z`.
pub open spec fn has3(b: Seq<u8>, a: int, x: u8, y: u8, z: u8) -> bool {
    0 <= a && a + 3 <= b.len() && b[a] == x && b[a + 1] == y && b[a + 2] == z
}

pub open spec fn all_hex(b: Seq<u8>, i: int, j: int) -> bool {
    forall|q: int| i <= q < j ==> is_hex_digit(#[trigger] b[q])
}

/// What the word `b[a..e]` of the comment field says.
pub open spec fn classify(b: Seq<u8>, a: int, e: int) -> CommentView {
    if has3(b, a, 47u8, 65u8, 61u8) && a + 3 <= e && number_spec(b, a + 3, e) is Some {
        // "/A=" altitude
        CommentView::Altitude(number_spec(b, a + 3, e)->0)
    } else if e - a == 5 && b[a] == 33u8 && b[a + 1] == 87u8 && is_dec_digit(b[a + 2])
        && is_dec_digit(b[a + 3]) && b[a + 4] == 33u8 {
        // "!Wxy!"
        CommentView::PositionPrecisionEnhancement {
            lat: (b[a + 2] - 48) as u8,
            lon: (b[a + 3] - 48) as u8,
        }
    } else if e - a == 10 && b[a] == 105u8 && b[a + 1] == 100u8 && all_hex(b, a + 2, e) {
        // "id" and eight hexadecimal digits
        CommentView::Id(b.subrange(a + 2, e))
    } else if e - a > 3 && has3(b, e - 3, 102u8, 112u8, 109u8) && number_spec(b, a, e - 3) is Some {
        // "fpm"
        CommentView::ClimbRate(number_spec(b, a, e - 3)->0)
    } else if e - a > 3 && has3(b, e - 3, 114u8, 111u8, 116u8) && number_spec(b, a, e - 3) is Some {
        // "rot"
        CommentView::TurningRate(number_spec(b, a, e - 3)->0)
    } else if e - a >= 2 && b[a] == 70u8 && b[a + 1] == 76u8 && number_spec(b, a + 2, e) is Some {
        // "FL"
        CommentView::FlightLevel(number_spec(b, a + 2, e)->0)
    } else {
        CommentView::Unknown(b.subrange(a, e))
    }
}

/// A comment's number keeps the sign of its text: a climb or turning rate is negative exactly
/// where its word starts with `-`, an altitude where `-` follows `/A=`, a flight level where
/// it follows `FL`.
pub proof fn comment_numbers_keep_their_sign(b: Seq<u8>, a: int, e: int)
    requires
        0 <= a < e <= b.len(),
    ensures
        classify(b, a, e) matches CommentView::ClimbRate(d) ==> (d.negative <==> b[a] == 45u8),
        classify(b, a, e) matches CommentView::TurningRate(d) ==> (d.negative <==> b[a] == 45u8),
        classify(b, a, e) matches CommentView::Altitude(d) ==> (d.negative <==> b[a + 3] == 45u8),
        classify(b, a, e) matches CommentView::FlightLevel(d) ==> (d.negative <==> b[a + 2]
            == 45u8),
{
}

/// A climb rate (`fpm`) or turning rate (`rot`) written as an optional sign then one to nine
/// digits reads as that whole number: those digits, no fraction, negative for `-`.
pub proof fn integer_rates_read_as_written(b: Seq<u8>, a: int, e: int)
    requires
        0 <= a,
        e <= b.len(),
        has3(b, e - 3, 102u8, 112u8, 109u8) || has3(b, e - 3, 114u8, 111u8, 116u8),
        ({
            let k = if b[a] == 45u8 || b[a] == 43u8 {
                a + 1
            } else {
                a
            };
            1 <= e - 3 - k <= 9 && all_dec(b, k, e - 3)
        }),
    ensures
        ({
            let k = if b[a] == 45u8 || b[a] == 43u8 {
                a + 1
            } else {
                a
            };
            let d = Decimal { negative: b[a] == 45u8, digits: dec_value(b, k, e - 3) as u64, scale: 0 };
            &&& has3(b, e - 3, 102u8, 112u8, 109u8) ==> classify(b, a, e) == CommentView::ClimbRate(d)
            &&& has3(b, e - 3, 114u8, 111u8, 116u8) ==> classify(b, a, e) == CommentView::TurningRate(d)
        }),
{
    let k = if b[a] == 45u8 || b[a] == 43u8 {
        a + 1
    } else {
        a
    };
    lemma_find_byte(b, 46u8, k, e - 3);
    let p = find_byte(b, 46u8, k, e - 3);
    if p < e - 3 {
        assert(is_dec_digit(b[p]));
    }
    assert(p == e - 3);
    assert(pow10(0) == 1);
    // The word starts with a sign or a digit: no altitude, enhancement or identifier.
    assert(b[a] != 47u8 && b[a] != 33u8 && b[a] != 105u8) by {
        if k == a {
            assert(is_dec_digit(b[a]));
        }
    }
    let d = Decimal { negative: b[a] == 45u8, digits: dec_value(b, k, e - 3) as u64, scale: 0 };
    assert(dec_value(b, k, e - 3) * pow10(0) + 0 == dec_value(b, k, e - 3));
    assert(number_spec(b, a, e - 3) == Some(d));
}

fn has3_exec(b: &[u8], a: usize, x: u8, y: u8, z: u8) -> (r: bool)
    ensures
        r == has3(b@, a as int, x, y, z),
{
    a <= b.len() && b.len() - a >= 3 && b[a] == x && b[a + 1] == y && b[a + 2] == z
}

fn all_hex_exec(b: &[u8], i: usize, j: usize) -> (r: bool)
    requires
        i <= j <= b@.len(),
    ensures
        r == all_hex(b@, i as int, j as int),
{
    let mut q = i;
    while q < j
        invariant
            i <= q <= j <= b@.len(),
            all_hex(b@, i as int, q as int),
        decreases j - q,
    {
        let c = b[q];
        if !((48 <= c && c <= 57) || (65 <= c && c <= 70) || (97 <= c && c <= 102)) {
            return false;
        }
        q = q + 1;
    }
    true
}

/// Reads the word `s[a..e]` of the comment field.
pub fn parse_comment(s: &str, b: &[u8], a: usize, e: usize) -> (r: Comment)
    requires
        b@ == s.spec_bytes(),
        a < e <= b@.len(),
        cut_ok(b@, a as int),
        cut_ok(b@, e as int),
    ensures
        r@ == classify(b@, a as int, e as int),
{
    if has3_exec(b, a, 47u8, 65u8, 61u8) && e - a >= 3 {
        if let Some(d) = parse_number(b, a + 3, e) {
            return Comment::Altitude(d);
        }
    }
    if e - a == 5 && b[a] == 33u8 && b[a + 1] == 87u8 && 48 <= b[a + 2] && b[a + 2] <= 57 && 48
        <= b[a + 3] && b[a + 3] <= 57 && b[a + 4] == 33u8 {
        return Comment::PositionPrecisionEnhancement { lat: b[a + 2] - 48, lon: b[a + 3] - 48 };
    }
    if e - a == 10 && b[a] == 105u8 && b[a + 1] == 100u8 && all_hex_exec(b, a + 2, e) {
        return Comment::Id(substring(s, a + 2, e));
    }
    if e - a > 3 && has3_exec(b, e - 3, 102u8, 112u8, 109u8) {
        if let Some(d) = parse_number(b, a, e - 3) {
            return Comment::ClimbRate(d);
        }
    }
    if e - a > 3 && has3_exec(b, e - 3, 114u8, 111u8, 116u8) {
        if let Some(d) = parse_number(b, a, e - 3) {
            return Comment::TurningRate(d);
        }
    }
    if e - a >= 2 && b[a] == 70u8 && b[a + 1] == 76u8 {
        if let Some(d) = parse_number(b, a + 2, e) {
            return Comment::FlightLevel(d);
        }
    }
    Comment::Unknown(substring(s, a, e))
}

/// The end of the word that starts at `i`.
pub open spec fn token_end(b: Seq<u8>, i: int) -> int
    decreases b.len() - i,
{
    if i >= b.len() || is_sep(b[i]) {
        i
    } else {
        token_end(b, i + 1)
    }
}

pub proof fn lemma_token_end(b: Seq<u8>, i: int)
    requires
        0 <= i <= b.len(),
    ensures
        i <= token_end(b, i) <= b.len(),
        i < b.len() && !is_sep(b[i]) ==> token_end(b, i) > i,
        token_end(b, i) < b.len() ==> is_sep(b[token_end(b, i)]),
        forall|q: int| i <= q < token_end(b, i) ==> !is_sep(b[q]),
    decreases b.len() - i,
{
    if i < b.len() && !is_sep(b[i]) {
        lemma_token_end(b, i + 1);
    }
}

/// The words of the comment field from index `i` on, as index ranges.
pub open spec fn tokens_from(b: Seq<u8>, i: int) -> Seq<(int, int)>
    decreases b.len() - i,
{
    if i < 0 || i >= b.len() {
        seq![]
    } else if is_sep(b[i]) {
        tokens_from(b, i + 1)
    } else {
        proof {
            lemma_token_end(b, i);
        }
        seq![(i, token_end(b, i))] + tokens_from(b, token_end(b, i))
    }
}

/// The comments of the comment field from index `i` on.
pub open spec fn comments_from(b: Seq<u8>, i: int) -> Seq<CommentView> {
    tokens_from(b, i).map_values(|t: (int, int)| classify(b, t.0, t.1))
}

fn token_end_exec(b: &[u8], i: usize) -> (r: usize)
    requires
        i <= b@.len(),
    ensures
        r == token_end(b@, i as int),
{
    let mut k = i;
    while k < b.len() && !(b[k] == 32 || b[k] == 10 || b[k] == 13)
        invariant
            i <= k <= b@.len(),
            token_end(b@, i as int) == token_end(b@, k as int),
        decreases b@.len() - k,
    {
        k = k + 1;
    }
    k
}

/// Reads the comment field that starts at `c0`: a word is read only where the byte before
/// it is ASCII.
pub fn parse_comments(s: &str, b: &[u8], c0: usize) -> (r: Vec<Comment>)
    requires
        b@ == s.spec_bytes(),
        c0 <= b@.len(),
        cut_ok(b@, c0 as int),
    ensures
        comments_view(r@) == comments_from(b@, c0 as int),
{
    let mut out: Vec<Comment> = Vec::new();
    let mut i = c0;
    while i < b.len()
        invariant
            b@ == s.spec_bytes(),
            c0 <= i <= b@.len(),
            cut_ok(b@, i as int),
            comments_view(out@) + comments_from(b@, i as int) =~= comments_from(b@, c0 as int),
        decreases b@.len() - i,
    {
        if b[i] == 32 || b[i] == 10 || b[i] == 13 {
            assert(comments_from(b@, i as int) =~= comments_from(b@, i + 1));
            i = i + 1;
        } else {
            let e = token_end_exec(b, i);
            proof {
                lemma_token_end(b@, i as int);
            }
            let c = parse_comment(s, b, i, e);
            let ghost before = comments_view(out@);
            out.push(c);
            proof {
                assert(comments_view(out@) =~= before.push(c@));
                assert(comments_from(b@, i as int) =~= seq![classify(b@, i as int, e as int)]
                    + comments_from(b@, e as int));
            }
            i = e;
        }
    }
    assert(comments_from(b@, i as int) =~= Seq::<CommentView>::empty());
    out
}

} // verus!
