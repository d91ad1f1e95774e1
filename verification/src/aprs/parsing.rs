//! Reading an APRS line into a report.
//!
//! The grammar, on the bytes of the line:
//! - header: a source (no `>` nor `:`), `>`, a destination and path (no `:`), then `:`;
//! - data type: `/` or `@` (position with timestamp), `!` or `=` (position without);
//! - timestamp: six digits then `h` (hours, minutes, seconds), `z` (day, hours, minutes
//!   in UTC) or `/` (the same in local time);
//! - position: latitude `DDMM.HH` then `N`/`S`, symbol table, longitude `DDDMM.HH` then
//!   `E`/`W`, symbol code (digits of minutes may be spaces, for position ambiguity, and
//!   symbols are printable ASCII); or a compressed position;
//! - an optional data extension: course and speed `CCC/SSS` (`...` or three spaces for
//!   none), `PHGdddd`, `RNGdddd` or `DFSdddd`;
//! - comments: the rest of the line, words separated by spaces.
use crate::aprs::comments::{
    all_dec, comments_from, dec_value, find_byte, find_byte_exec, has3, lemma_dec_value_step,
    lemma_find_byte, parse_comments,
};
use crate::aprs::report::{
    spec_extension_text, spec_timestamp_text, two_digits, Angle, Bearing, CommentView, PositionReport, PositionReportCoordinates,
    PositionReportDataExtension, Report, comments_view,
};
use crate::aprs::time::{valid_instant, APRSTimestamp, DHM, TimeOfDay};
use crate::calendar::{day_start, split_day, NANOS_PER_DAY};
use crate::text::{
    char_bytes, cut_ok, digit_char, parse_int, parse_int_spec, radix_chars, zero_padded,
};
use vstd::prelude::*;
use vstd::string::StringSliceAdditionalSpecFns;

verus! {

/// Why a line is no report.
#[derive(Clone, Copy, Debug, PartialEq, Eq, Structural)]
pub enum ParseError {
    /// The line does not follow the grammar.
    Syntax,
    /// A coordinate's minutes or seconds could not be read.
    InvalidCoordinate,
}

/// A position report with its comments' text taken as UTF-8 bytes.
#[verifier::ext_equal]
pub struct PositionReportView {
    pub timestamp: Option<APRSTimestamp>,
    pub symbol: Seq<u8>,
    pub position: PositionReportCoordinates,
    pub data_extension: Option<PositionReportDataExtension>,
    pub comments: Seq<CommentView>,
}

impl View for PositionReport {
    type V = PositionReportView;

    open spec fn view(&self) -> PositionReportView {
        PositionReportView {
            timestamp: self.timestamp,
            symbol: self.symbol@,
            position: self.position,
            data_extension: self.data_extension,
            comments: comments_view(self.comments@),
        }
    }
}

/// What reading a line gives: a report, an error, or a part that is not read yet
/// (compressed positions; PHG, range and direction-finding extensions; times of day
/// beyond 23:59:59).
pub enum ParseOutcome {
    Parsed(PositionReportView),
    Failed(ParseError),
    Unsupported,
}

/// Reading of a minutes or seconds pair where trailing digits may be spaces: two spaces
/// are 0 with no digit, a digit and a space are ten times the digit with one digit,
/// otherwise the pair is read as an integer with two digits.
pub open spec fn ambiguous_pair_spec(b: Seq<u8>, a: int, e: int) -> Option<(i32, u8)> {
    if e - a == 2 && b[a] == 32u8 && b[a + 1] == 32u8 {
        Some((0i32, 0u8))
    } else if e > a && b[e - 1] == 32u8 {
        match parse_int_spec(b.subrange(a, a + 1), 10, true, i32::MIN as int, i32::MAX as int) {
            Some(n) => Some(((n * 10) as i32, 1u8)),
            None => None,
        }
    } else {
        match parse_int_spec(b.subrange(a, e), 10, true, i32::MIN as int, i32::MAX as int) {
            Some(n) => Some((n as i32, 2u8)),
            None => None,
        }
    }
}

/// Taking the first character of a pair that ends in a space cuts the text after its
/// first byte, which must then be ASCII.
pub open spec fn ambiguous_pair_cuts(b: Seq<u8>, a: int, e: int) -> bool {
    (e - a == 2 && b[a] == 32u8 && b[a + 1] == 32u8) || !(e > a && b[e - 1] == 32u8) || b[a]
        < 128
}

fn ambiguous_pair(b: &[u8], a: usize, e: usize) -> (r: Option<(i32, u8)>)
    requires
        a <= e <= b@.len(),
    ensures
        r == ambiguous_pair_spec(b@, a as int, e as int),
{
    if e - a == 2 && b[a] == 32u8 && b[a + 1] == 32u8 {
        Some((0, 0))
    } else if e > a && b[e - 1] == 32u8 {
        match parse_int(b, a, a + 1, 10, true, i32::MIN as i64, i32::MAX as i64) {
            Some(n) => {
                proof {
                    let t = b@.subrange(a as int, a + 1);
                    if t[0] == 45u8 || t[0] == 43u8 {
                        assert(t.drop_first().len() == 0);
                    } else {
                        assert(t.drop_last().len() == 0);
                        assert(crate::text::digits_value(t.drop_last(), 10) == 0);
                        assert(t.last() == t[0]);
                    }
                    assert(0 <= n <= 9);
                }
                Some(((n * 10) as i32, 1))
            },
            None => None,
        }
    } else {
        match parse_int(b, a, e, 10, true, i32::MIN as i64, i32::MAX as i64) {
            Some(n) => Some((n as i32, 2)),
            None => None,
        }
    }
}

pub open spec fn bearing_of(c: u8) -> Option<Bearing> {
    if c == 78u8 {
        Some(Bearing::North)
    } else if c == 69u8 {
        Some(Bearing::East)
    } else if c == 83u8 {
        Some(Bearing::South)
    } else if c == 87u8 {
        Some(Bearing::West)
    } else {
        None
    }
}

/// Reading of a coordinate `b[a..e]`: degrees (three digits where five characters precede
/// the point, else two), minutes up to the point, two seconds characters, and the bearing
/// letter; with the number of digits given of minutes and seconds.
pub open spec fn latlon_spec(b: Seq<u8>, a: int, e: int) -> Option<(Angle, u8)> {
    let p = find_byte(b, 46u8, a, e);
    let k = if p - a == 5 {
        3int
    } else {
        2int
    };
    if p == e {
        None
    } else {
        match (
            parse_int_spec(b.subrange(a, a + k), 10, false, 0, 65535),
            ambiguous_pair_spec(b, a + k, p),
            ambiguous_pair_spec(b, p + 1, p + 3),
        ) {
            (Some(d), Some((m, nm)), Some((sec, ns))) => if e == p + 4 && bearing_of(b[p + 3]) is Some {
                Some(
                    (
                        Angle {
                            degrees: d as u16,
                            minutes: m,
                            seconds: sec,
                            bearing: bearing_of(b[p + 3])->0,
                        },
                        (nm + ns) as u8,
                    ),
                )
            } else {
                None
            },
            _ => None,
        }
    }
}

/// The coordinate text can be cut where its reading cuts it.
pub open spec fn latlon_cuts(b: Seq<u8>, a: int, e: int) -> bool {
    let p = find_byte(b, 46u8, a, e);
    p < e ==> (p - a >= 2 && e - p - 1 >= 2 && (forall|q: int| a <= q < e ==> b[q] < 128))
}

fn parse_latlon_number(b: &[u8], a: usize, e: usize) -> (r: Option<(Angle, u8)>)
    requires
        a <= e <= b@.len(),
        latlon_cuts(b@, a as int, e as int),
    ensures
        r == latlon_spec(b@, a as int, e as int),
{
    let p = find_byte_exec(b, 46u8, a, e);
    proof {
        lemma_find_byte(b@, 46u8, a as int, e as int);
    }
    if p == e {
        return None;
    }
    let k: usize = if p - a == 5 { 3 } else { 2 };
    let degrees = parse_int(b, a, a + k, 10, false, 0, 65535);
    let minutes = ambiguous_pair(b, a + k, p);
    let seconds = ambiguous_pair(b, p + 1, p + 3);
    match (degrees, minutes, seconds) {
        (Some(d), Some((m, nm)), Some((sec, ns))) => {
            if e - p != 4 {
                return None;
            }
            let c = b[p + 3];
            let bearing = if c == 78u8 {
                Bearing::North
            } else if c == 69u8 {
                Bearing::East
            } else if c == 83u8 {
                Bearing::South
            } else if c == 87u8 {
                Bearing::West
            } else {
                return None;
            };
            Some((Angle { degrees: d as u16, minutes: m, seconds: sec, bearing }, nm + ns))
        },
        _ => None,
    }
}

pub open spec fn is_amb(c: u8) -> bool {
    (48 <= c <= 57) || c == 32u8
}

pub open spec fn printable(c: u8) -> bool {
    33 <= c <= 126
}

pub open spec fn lat_form(b: Seq<u8>, j: int) -> bool {
    &&& 0 <= j && j + 8 <= b.len()
    &&& 48 <= b[j] <= 57 && 48 <= b[j + 1] <= 57
    &&& is_amb(b[j + 2]) && is_amb(b[j + 3])
    &&& b[j + 4] == 46u8
    &&& is_amb(b[j + 5]) && is_amb(b[j + 6])
    &&& (b[j + 7] == 78u8 || b[j + 7] == 83u8)
}

pub open spec fn lon_form(b: Seq<u8>, j: int) -> bool {
    &&& 0 <= j && j + 9 <= b.len()
    &&& 48 <= b[j] <= 57 && 48 <= b[j + 1] <= 57 && 48 <= b[j + 2] <= 57
    &&& is_amb(b[j + 3]) && is_amb(b[j + 4])
    &&& b[j + 5] == 46u8
    &&& is_amb(b[j + 6]) && is_amb(b[j + 7])
    &&& (b[j + 8] == 69u8 || b[j + 8] == 87u8)
}

/// Latitude, symbol table, longitude, symbol code.
pub open spec fn uncompressed_form(b: Seq<u8>, j: int) -> bool {
    &&& 0 <= j && j + 19 <= b.len()
    &&& lat_form(b, j)
    &&& printable(b[j + 8])
    &&& lon_form(b, j + 9)
    &&& printable(b[j + 18])
}

pub open spec fn compressed_table(c: u8) -> bool {
    c == 47u8 || c == 92u8 || (65 <= c <= 90) || (97 <= c <= 106)
}

/// Symbol table, four and four base 91 digits, symbol code, course/speed and type bytes.
pub open spec fn compressed_form(b: Seq<u8>, j: int) -> bool {
    &&& 0 <= j && j + 13 <= b.len()
    &&& compressed_table(b[j])
    &&& forall|q: int| j + 1 <= q < j + 9 ==> 33 <= #[trigger] b[q] <= 123
    &&& printable(b[j + 9])
    &&& forall|q: int| j + 10 <= q < j + 13 ==> 32 <= #[trigger] b[q] <= 126
}

/// Three digits, or `...` / three spaces (no value, read as 0).
pub open spec fn three_spec(b: Seq<u8>, i: int) -> Option<u32> {
    if 0 <= i && i + 3 <= b.len() && all_dec(b, i, i + 3) {
        Some(dec_value(b, i, i + 3) as u32)
    } else if has3(b, i, 46u8, 46u8, 46u8) || has3(b, i, 32u8, 32u8, 32u8) {
        Some(0u32)
    } else {
        None
    }
}

pub open spec fn course_speed_form(b: Seq<u8>, e: int) -> bool {
    0 <= e && e + 7 <= b.len() && three_spec(b, e) is Some && b[e + 3] == 47u8 && three_spec(
        b,
        e + 4,
    ) is Some
}

/// A PHG, range or direction-finding extension.
pub open spec fn other_extension_form(b: Seq<u8>, e: int) -> bool {
    0 <= e && e + 7 <= b.len() && (has3(b, e, 80u8, 72u8, 71u8) || has3(b, e, 82u8, 78u8, 71u8)
        || has3(b, e, 68u8, 70u8, 83u8)) && all_dec(b, e + 3, e + 7)
}

pub open spec fn ts_form(b: Seq<u8>, t: int) -> bool {
    0 <= t && t + 7 <= b.len() && all_dec(b, t, t + 6) && (b[t + 6] == 104u8 || b[t + 6] == 122u8
        || b[t + 6] == 47u8)
}

pub open spec fn ts_value(b: Seq<u8>, t: int) -> APRSTimestamp {
    let x = dec_value(b, t, t + 2) as u32;
    let y = dec_value(b, t + 2, t + 4) as u32;
    let z = dec_value(b, t + 4, t + 6) as u32;
    if b[t + 6] == 104u8 {
        APRSTimestamp::HMS(TimeOfDay { hour: x, minute: y, second: z })
    } else {
        APRSTimestamp::DHM(
            DHM { day: x, time: TimeOfDay { hour: y, minute: z, second: 0 }, utc: b[t + 6] == 122u8 },
        )
    }
}

/// The index of the colon that ends the header, where the header is well formed.
pub open spec fn header_end(b: Seq<u8>) -> Option<int> {
    let c = find_byte(b, 58u8, 0, b.len() as int);
    let g = find_byte(b, 62u8, 0, c);
    if c < b.len() && 0 < g && g + 1 < c {
        Some(c)
    } else {
        None
    }
}

/// How the part of a line before the position's coordinates reads: the timestamp and the
/// index of the latitude, where the position is not compressed.
pub enum PrefixOutcome {
    Ready(Option<APRSTimestamp>, int),
    Failed(ParseError),
    Unsupported,
}

/// Header, data type, timestamp and the form of the position.
pub open spec fn prefix_spec(b: Seq<u8>) -> PrefixOutcome {
    match header_end(b) {
        None => PrefixOutcome::Failed(ParseError::Syntax),
        Some(c) => {
            let i0 = c + 1;
            if i0 >= b.len() || !(b[i0] == 47u8 || b[i0] == 64u8 || b[i0] == 33u8 || b[i0] == 61u8) {
                PrefixOutcome::Failed(ParseError::Syntax)
            } else {
                let has_ts = b[i0] == 47u8 || b[i0] == 64u8;
                let j = if has_ts {
                    i0 + 8
                } else {
                    i0 + 1
                };
                if has_ts && !ts_form(b, i0 + 1) {
                    PrefixOutcome::Failed(ParseError::Syntax)
                } else if !uncompressed_form(b, j) && !compressed_form(b, j) {
                    PrefixOutcome::Failed(ParseError::Syntax)
                } else if has_ts && !ts_value(b, i0 + 1).wf() {
                    PrefixOutcome::Unsupported
                } else if !uncompressed_form(b, j) {
                    PrefixOutcome::Unsupported
                } else {
                    PrefixOutcome::Ready(
                        if has_ts {
                            Some(ts_value(b, i0 + 1))
                        } else {
                            None
                        },
                        j,
                    )
                }
            }
        },
    }
}

/// Coordinates, symbol, data extension and comments, from the latitude at `j` on.
pub open spec fn body_spec(b: Seq<u8>, timestamp: Option<APRSTimestamp>, j: int) -> ParseOutcome {
    match (latlon_spec(b, j, j + 8), latlon_spec(b, j + 9, j + 18)) {
        (Some((lat, lat_digits)), Some((lon, lon_digits))) => {
            let e = j + 19;
            if !course_speed_form(b, e) && other_extension_form(b, e) {
                ParseOutcome::Unsupported
            } else {
                let cs = course_speed_form(b, e);
                ParseOutcome::Parsed(
                    PositionReportView {
                        timestamp,
                        symbol: seq![b[j + 8], b[j + 18]],
                        position: PositionReportCoordinates {
                            latitude: lat,
                            longitude: lon,
                            lat_digits,
                            lon_digits,
                        },
                        data_extension: if cs {
                            Some(
                                PositionReportDataExtension::CourseSpeed {
                                    course: three_spec(b, e)->0,
                                    speed: three_spec(b, e + 4)->0,
                                },
                            )
                        } else {
                            None
                        },
                        comments: comments_from(
                            b,
                            if cs {
                                e + 7
                            } else {
                                e
                            },
                        ),
                    },
                )
            }
        },
        _ => ParseOutcome::Failed(ParseError::InvalidCoordinate),
    }
}

/// What reading the line `b` gives.
pub open spec fn parse_spec(b: Seq<u8>) -> ParseOutcome {
    match prefix_spec(b) {
        PrefixOutcome::Failed(e) => ParseOutcome::Failed(e),
        PrefixOutcome::Unsupported => ParseOutcome::Unsupported,
        PrefixOutcome::Ready(timestamp, j) => body_spec(b, timestamp, j),
    }
}

fn digit_at(b: &[u8], i: usize) -> (r: bool)
    requires
        i < b@.len(),
    ensures
        r == (48 <= b@[i as int] <= 57),
{
    48 <= b[i] && b[i] <= 57
}

fn amb_at(b: &[u8], i: usize) -> (r: bool)
    requires
        i < b@.len(),
    ensures
        r == is_amb(b@[i as int]),
{
    (48 <= b[i] && b[i] <= 57) || b[i] == 32u8
}

fn printable_at(b: &[u8], i: usize) -> (r: bool)
    requires
        i < b@.len(),
    ensures
        r == printable(b@[i as int]),
{
    33 <= b[i] && b[i] <= 126
}

/// The value of the digits `b[i..end]`, for up to three digits.
fn small_value(b: &[u8], i: usize, end: usize) -> (r: u32)
    requires
        1 <= end - i <= 3,
        i <= end <= b@.len(),
        all_dec(b@, i as int, end as int),
    ensures
        r == dec_value(b@, i as int, end as int),
        r < 1000,
{
    let mut v: u32 = 0;
    let mut q = i;
    assert(b@.subrange(i as int, i as int).len() == 0);
    while q < end
        invariant
            i <= q <= end <= b@.len(),
            1 <= end - i <= 3,
            all_dec(b@, i as int, end as int),
            v == dec_value(b@, i as int, q as int),
            q == i + 1 ==> v < 10,
            q == i + 2 ==> v < 100,
            q == i + 3 ==> v < 1000,
            q == i ==> v == 0,
        decreases end - q,
    {
        proof {
            lemma_dec_value_step(b@, i as int, q as int);
        }
        v = v * 10 + (b[q] - 48) as u32;
        q = q + 1;
    }
    v
}

fn all_dec_exec(b: &[u8], i: usize, j: usize) -> (r: bool)
    requires
        i <= j <= b@.len(),
    ensures
        r == all_dec(b@, i as int, j as int),
{
    let mut q = i;
    while q < j
        invariant
            i <= q <= j <= b@.len(),
            all_dec(b@, i as int, q as int),
        decreases j - q,
    {
        if !(48 <= b[q] && b[q] <= 57) {
            return false;
        }
        q = q + 1;
    }
    true
}

fn lat_form_exec(b: &[u8], j: usize) -> (r: bool)
    ensures
        r == lat_form(b@, j as int),
{
    j <= b.len() && b.len() - j >= 8 && digit_at(b, j) && digit_at(b, j + 1) && amb_at(b, j + 2)
        && amb_at(b, j + 3) && b[j + 4] == 46u8 && amb_at(b, j + 5) && amb_at(b, j + 6) && (b[j
        + 7] == 78u8 || b[j + 7] == 83u8)
}

fn lon_form_exec(b: &[u8], j: usize) -> (r: bool)
    ensures
        r == lon_form(b@, j as int),
{
    j <= b.len() && b.len() - j >= 9 && digit_at(b, j) && digit_at(b, j + 1) && digit_at(b, j + 2)
        && amb_at(b, j + 3) && amb_at(b, j + 4) && b[j + 5] == 46u8 && amb_at(b, j + 6) && amb_at(
        b,
        j + 7,
    ) && (b[j + 8] == 69u8 || b[j + 8] == 87u8)
}

fn uncompressed_form_exec(b: &[u8], j: usize) -> (r: bool)
    ensures
        r == uncompressed_form(b@, j as int),
{
    j <= b.len() && b.len() - j >= 19 && lat_form_exec(b, j) && printable_at(b, j + 8)
        && lon_form_exec(b, j + 9) && printable_at(b, j + 18)
}

fn compressed_form_exec(b: &[u8], j: usize) -> (r: bool)
    ensures
        r == compressed_form(b@, j as int),
{
    if !(j <= b.len() && b.len() - j >= 13) {
        return false;
    }
    let c = b[j];
    if !(c == 47u8 || c == 92u8 || (65 <= c && c <= 90) || (97 <= c && c <= 106)) {
        return false;
    }
    let end1 = j + 9;
    let mut q = j + 1;
    while q < end1
        invariant
            j + 1 <= q <= end1 == j + 9,
            j + 13 <= b@.len(),
            forall|x: int| j + 1 <= x < q ==> 33 <= #[trigger] b@[x] <= 123,
        decreases end1 - q,
    {
        if !(33 <= b[q] && b[q] <= 123) {
            return false;
        }
        q = q + 1;
    }
    if !printable_at(b, j + 9) {
        return false;
    }
    let end2 = j + 13;
    let mut q = j + 10;
    while q < end2
        invariant
            j + 10 <= q <= end2 == j + 13,
            j + 13 <= b@.len(),
            forall|x: int| j + 10 <= x < q ==> 32 <= #[trigger] b@[x] <= 126,
        decreases end2 - q,
    {
        if !(32 <= b[q] && b[q] <= 126) {
            return false;
        }
        q = q + 1;
    }
    true
}

fn has3_at(b: &[u8], a: usize, x: u8, y: u8, z: u8) -> (r: bool)
    ensures
        r == has3(b@, a as int, x, y, z),
{
    a <= b.len() && b.len() - a >= 3 && b[a] == x && b[a + 1] == y && b[a + 2] == z
}

fn three_exec(b: &[u8], i: usize) -> (r: Option<u32>)
    ensures
        r == three_spec(b@, i as int),
{
    if i <= b.len() && b.len() - i >= 3 && all_dec_exec(b, i, i + 3) {
        Some(small_value(b, i, i + 3))
    } else if has3_at(b, i, 46u8, 46u8, 46u8) || has3_at(b, i, 32u8, 32u8, 32u8) {
        Some(0)
    } else {
        None
    }
}

fn course_speed_exec(b: &[u8], e: usize) -> (r: Option<(u32, u32)>)
    ensures
        r is Some <==> course_speed_form(b@, e as int),
        r matches Some((c, s)) ==> three_spec(b@, e as int) == Some(c) && three_spec(
            b@,
            e + 4,
        ) == Some(s),
{
    if !(e <= b.len() && b.len() - e >= 7) {
        return None;
    }
    match (three_exec(b, e), three_exec(b, e + 4)) {
        (Some(c), Some(s)) => if b[e + 3] == 47u8 {
            Some((c, s))
        } else {
            None
        },
        _ => None,
    }
}

fn other_extension_exec(b: &[u8], e: usize) -> (r: bool)
    ensures
        r == other_extension_form(b@, e as int),
{
    e <= b.len() && b.len() - e >= 7 && (has3_at(b, e, 80u8, 72u8, 71u8) || has3_at(
        b,
        e,
        82u8,
        78u8,
        71u8,
    ) || has3_at(b, e, 68u8, 70u8, 83u8)) && all_dec_exec(b, e + 3, e + 7)
}

fn ts_form_exec(b: &[u8], t: usize) -> (r: bool)
    ensures
        r == ts_form(b@, t as int),
{
    t <= b.len() && b.len() - t >= 7 && all_dec_exec(b, t, t + 6) && (b[t + 6] == 104u8 || b[t
        + 6] == 122u8 || b[t + 6] == 47u8)
}

fn ts_value_exec(b: &[u8], t: usize) -> (r: APRSTimestamp)
    requires
        ts_form(b@, t as int),
    ensures
        r == ts_value(b@, t as int),
{
    let n = b.len();
    assert(all_dec(b@, t as int, t + 2) && all_dec(b@, t + 2, t + 4) && all_dec(b@, t + 4, t + 6));
    let x = small_value(b, t, t + 2);
    let y = small_value(b, t + 2, t + 4);
    let z = small_value(b, t + 4, t + 6);
    if b[t + 6] == 104u8 {
        APRSTimestamp::HMS(TimeOfDay { hour: x, minute: y, second: z })
    } else {
        APRSTimestamp::DHM(
            DHM { day: x, time: TimeOfDay { hour: y, minute: z, second: 0 }, utc: b[t + 6] == 122u8 },
        )
    }
}

fn header_end_exec(b: &[u8]) -> (r: Option<usize>)
    ensures
        match (r, header_end(b@)) {
            (Some(x), Some(y)) => x == y,
            (None, None) => true,
            _ => false,
        },
        r matches Some(x) ==> x < b@.len(),
{
    let c = find_byte_exec(b, 58u8, 0, b.len());
    let g = find_byte_exec(b, 62u8, 0, c);
    if c < b.len() && 0 < g && c - g > 1 {
        Some(c)
    } else {
        None
    }
}

proof fn lemma_latlon_cuts(b: Seq<u8>, j: int, n: int)
    requires
        (n == 8 && lat_form(b, j)) || (n == 9 && lon_form(b, j)),
    ensures
        latlon_cuts(b, j, j + n),
        find_byte(b, 46u8, j, j + n) == j + n - 4,
{
    lemma_find_byte(b, 46u8, j, j + n);
    let p = find_byte(b, 46u8, j, j + n);
    assert(b[j + n - 4] == 46u8);
    if p < j + n - 4 {
        assert(b[p] == 46u8);
    }
}

fn read_prefix(b: &[u8]) -> (r: Result<(Option<APRSTimestamp>, usize), bool>)
    ensures
        match (r, prefix_spec(b@)) {
            (Ok((t, j)), PrefixOutcome::Ready(t2, j2)) => t == t2 && j == j2 && uncompressed_form(
                b@,
                j as int,
            ),
            (Err(false), PrefixOutcome::Failed(e)) => e == ParseError::Syntax,
            (Err(true), PrefixOutcome::Unsupported) => true,
            _ => false,
        },
{
    let n = b.len();
    let c = match header_end_exec(b) {
        Some(c) => c,
        None => return Err(false),
    };
    if n - c <= 1 {
        return Err(false);
    }
    let i0 = c + 1;
    let ty = b[i0];
    if !(ty == 47u8 || ty == 64u8 || ty == 33u8 || ty == 61u8) {
        return Err(false);
    }
    let has_ts = ty == 47u8 || ty == 64u8;
    if has_ts && !ts_form_exec(b, i0 + 1) {
        return Err(false);
    }
    let j = if has_ts {
        if n - i0 < 8 {
            return Err(false);
        }
        i0 + 8
    } else {
        i0 + 1
    };
    let unc = uncompressed_form_exec(b, j);
    if !unc && !compressed_form_exec(b, j) {
        return Err(false);
    }
    let timestamp = if has_ts {
        let t = ts_value_exec(b, i0 + 1);
        let valid = match t {
            APRSTimestamp::HMS(x) => x.hour < 24 && x.minute < 60 && x.second < 60,
            APRSTimestamp::DHM(d) => d.time.hour < 24 && d.time.minute < 60 && d.time.second < 60,
        };
        if !valid {
            return Err(true);
        }
        Some(t)
    } else {
        None
    };
    if !unc {
        return Err(true);
    }
    Ok((timestamp, j))
}

fn read_body(s: &str, b: &[u8], timestamp: Option<APRSTimestamp>, j: usize) -> (r: Result<PositionReport, bool>)
    requires
        b@ == s.spec_bytes(),
        uncompressed_form(b@, j as int),
    ensures
        match (r, body_spec(b@, timestamp, j as int)) {
            (Ok(rep), ParseOutcome::Parsed(v)) => rep@ == v,
            (Err(false), ParseOutcome::Failed(e)) => e == ParseError::InvalidCoordinate,
            (Err(true), ParseOutcome::Unsupported) => true,
            _ => false,
        },
{
    let n = b.len();
    proof {
        lemma_latlon_cuts(b@, j as int, 8);
        lemma_latlon_cuts(b@, j + 9, 9);
    }
    let (lat, lat_digits) = match parse_latlon_number(b, j, j + 8) {
        Some(x) => x,
        None => return Err(false),
    };
    let (lon, lon_digits) = match parse_latlon_number(b, j + 9, j + 18) {
        Some(x) => x,
        None => return Err(false),
    };
    let e = j + 19;
    let (data_extension, c0) = match course_speed_exec(b, e) {
        Some((course, speed)) => (Some(PositionReportDataExtension::CourseSpeed { course, speed }), e + 7),
        None => {
            if other_extension_exec(b, e) {
                return Err(true);
            }
            (None, e)
        },
    };
    let comments = parse_comments(s, b, c0);
    let report = PositionReport {
        timestamp,
        symbol: [b[j + 8], b[j + 18]],
        position: PositionReportCoordinates { latitude: lat, longitude: lon, lat_digits, lon_digits },
        data_extension,
        comments,
    };
    proof {
        assert(report.symbol@ =~= seq![b@[j + 8], b@[j + 18]]);
    }
    Ok(report)
}

/// The line can be read with the present grammar: it is no compressed position, no PHG,
/// range or direction-finding extension, and no time of day beyond 23:59:59.
pub open spec fn is_supported_spec(b: Seq<u8>) -> bool {
    !(parse_spec(b) is Unsupported)
}

/// Reads the line `s` into a position report.
pub fn parse_position_report(s: &str) -> (r: Result<PositionReport, ParseError>)
    requires
        is_supported_spec(s.spec_bytes()),
    ensures
        match (r, parse_spec(s.spec_bytes())) {
            (Ok(rep), ParseOutcome::Parsed(v)) => rep@ == v,
            (Err(e), ParseOutcome::Failed(f)) => e == f,
            _ => false,
        },
{
    let b = s.as_bytes();
    match read_prefix(b) {
        Err(_) => Err(ParseError::Syntax),
        Ok((timestamp, j)) => match read_body(s, b, timestamp, j) {
            Ok(rep) => Ok(rep),
            Err(_) => Err(ParseError::InvalidCoordinate),
        },
    }
}

/// Whether the line can be read with the present grammar.
pub fn is_supported(s: &str) -> (r: bool)
    ensures
        r == is_supported_spec(s.spec_bytes()),
{
    let b = s.as_bytes();
    match read_prefix(b) {
        Err(unsupported) => !unsupported,
        Ok((_, j)) => {
            let n = b.len();
            proof {
                lemma_latlon_cuts(b@, j as int, 8);
                lemma_latlon_cuts(b@, j + 9, 9);
            }
            if parse_latlon_number(b, j, j + 8).is_none() || parse_latlon_number(b, j + 9, j + 18).is_none() {
                return true;
            }
            let e = j + 19;
            !(course_speed_exec(b, e).is_none() && other_extension_exec(b, e))
        },
    }
}

proof fn lemma_two_digits(n: nat)
    requires
        n < 100,
    ensures
        two_digits(n) == seq![((48 + n / 10) as char), ((48 + n % 10) as char)],
{
    if n < 10 {
        assert(two_digits(n) =~= seq![((48 + n / 10) as char), ((48 + n % 10) as char)]);
    } else {
        assert(radix_chars(n / 10, 10) == seq![digit_char((n / 10) as int)]);
        assert(two_digits(n) =~= seq![((48 + n / 10) as char), ((48 + n % 10) as char)]);
    }
}

proof fn lemma_two_digit_bytes(b: Seq<u8>, i: int, n: nat)
    requires
        n < 100,
        0 <= i,
        i + 2 <= b.len(),
        b[i] == (48 + n / 10) as u8,
        b[i + 1] == (48 + n % 10) as u8,
    ensures
        all_dec(b, i, i + 2),
        dec_value(b, i, i + 2) == n,
{
    let t = b.subrange(i, i + 2);
    assert(t.drop_last().drop_last().len() == 0);
    assert(t.drop_last().last() == b[i]);
    assert(t.last() == b[i + 1]);
    assert(crate::text::digits_value(t.drop_last().drop_last(), 10) == 0);
    assert(crate::text::digits_value(t.drop_last(), 10) == n / 10);
    assert(crate::text::digits_value(t, 10) == (n / 10) * 10 + n % 10);
}

/// A timestamp written as a report writes it reads back as the same timestamp (days of
/// month below 100, which two digits hold).
pub proof fn timestamp_text_reads_back(t: APRSTimestamp, b: Seq<u8>, i: int)
    requires
        t.wf(),
        t matches APRSTimestamp::DHM(d) ==> d.day < 100,
        0 <= i,
        i + 7 <= b.len(),
        forall|q: int| 0 <= q < 7 ==> b[i + q] == #[trigger] spec_timestamp_text(t)[q] as u8,
    ensures
        ts_form(b, i),
        ts_value(b, i) == t,
{
    let (x, y, z) = match t {
        APRSTimestamp::HMS(tm) => (tm.hour as nat, tm.minute as nat, tm.second as nat),
        APRSTimestamp::DHM(d) => (d.day as nat, d.time.hour as nat, d.time.minute as nat),
    };
    lemma_two_digits(x);
    lemma_two_digits(y);
    lemma_two_digits(z);
    let text = spec_timestamp_text(t);
    assert(text[0] == (48 + x / 10) as char && text[1] == (48 + x % 10) as char);
    assert(text[2] == (48 + y / 10) as char && text[3] == (48 + y % 10) as char);
    assert(text[4] == (48 + z / 10) as char && text[5] == (48 + z % 10) as char);
    assert(b[i] == text[0] as u8 && b[i + 1] == text[1] as u8);
    assert(b[i + 2] == text[2] as u8 && b[i + 3] == text[3] as u8);
    assert(b[i + 4] == text[4] as u8 && b[i + 5] == text[5] as u8);
    assert(b[i + 6] == text[6] as u8);
    lemma_two_digit_bytes(b, i, x);
    lemma_two_digit_bytes(b, i + 2, y);
    lemma_two_digit_bytes(b, i + 4, z);
    assert(all_dec(b, i, i + 6));
}

proof fn lemma_three_digits(n: nat)
    requires
        n < 1000,
    ensures
        zero_padded(radix_chars(n, 10), 3) == seq![
            ((48 + n / 100) as char),
            ((48 + (n / 10) % 10) as char),
            ((48 + n % 10) as char),
        ],
{
    let want = seq![((48 + n / 100) as char), ((48 + (n / 10) % 10) as char), ((48 + n % 10) as char)];
    if n < 10 {
        assert(zero_padded(radix_chars(n, 10), 3) =~= want);
    } else if n < 100 {
        assert(radix_chars(n / 10, 10) == seq![digit_char((n / 10) as int)]);
        assert(zero_padded(radix_chars(n, 10), 3) =~= want);
    } else {
        assert(n / 10 / 10 == n / 100);
        assert(radix_chars(n / 100, 10) == seq![digit_char((n / 100) as int)]);
        assert(radix_chars(n / 10, 10) == seq![digit_char((n / 100) as int), digit_char(
            ((n / 10) % 10) as int,
        )]);
        assert(zero_padded(radix_chars(n, 10), 3) =~= want);
    }
}

proof fn lemma_three_digit_bytes(b: Seq<u8>, i: int, n: nat)
    requires
        n < 1000,
        0 <= i,
        i + 3 <= b.len(),
        b[i] == (48 + n / 100) as u8,
        b[i + 1] == (48 + (n / 10) % 10) as u8,
        b[i + 2] == (48 + n % 10) as u8,
    ensures
        all_dec(b, i, i + 3),
        dec_value(b, i, i + 3) == n,
{
    let t = b.subrange(i, i + 3);
    assert(t.drop_last().drop_last().drop_last().len() == 0);
    assert(t.drop_last().drop_last().last() == b[i]);
    assert(t.drop_last().last() == b[i + 1]);
    assert(t.last() == b[i + 2]);
    assert(crate::text::digits_value(t.drop_last().drop_last().drop_last(), 10) == 0);
    assert(crate::text::digits_value(t.drop_last().drop_last(), 10) == n / 100);
    assert(crate::text::digits_value(t.drop_last(), 10) == (n / 100) * 10 + (n / 10) % 10);
    assert(crate::text::digits_value(t, 10) == ((n / 100) * 10 + (n / 10) % 10) * 10 + n % 10);
}

/// A course/speed extension written as a report writes it reads back as the same course and
/// speed (values below 1000, which three digits hold).
pub proof fn course_speed_text_reads_back(course: u32, speed: u32, b: Seq<u8>, i: int)
    requires
        course < 1000,
        speed < 1000,
        0 <= i,
        i + 7 <= b.len(),
        forall|q: int|
            0 <= q < 7 ==> b[i + q] == #[trigger] spec_extension_text(
                PositionReportDataExtension::CourseSpeed { course, speed },
            )[q] as u8,
    ensures
        course_speed_form(b, i),
        three_spec(b, i) == Some(course),
        three_spec(b, i + 4) == Some(speed),
{
    let text = spec_extension_text(PositionReportDataExtension::CourseSpeed { course, speed });
    let (c, v) = (course as nat, speed as nat);
    lemma_three_digits(c);
    lemma_three_digits(v);
    assert(text[0] == (48 + c / 100) as char && text[1] == (48 + (c / 10) % 10) as char && text[2]
        == (48 + c % 10) as char);
    assert(text[3] == '/');
    assert(text[4] == (48 + v / 100) as char && text[5] == (48 + (v / 10) % 10) as char && text[6]
        == (48 + v % 10) as char);
    assert(b[i] == text[0] as u8 && b[i + 1] == text[1] as u8 && b[i + 2] == text[2] as u8);
    assert(b[i + 3] == text[3] as u8);
    assert(b[i + 4] == text[4] as u8 && b[i + 5] == text[5] as u8 && b[i + 6] == text[6] as u8);
    lemma_three_digit_bytes(b, i, c);
    lemma_three_digit_bytes(b, i + 4, v);
}

proof fn lemma_char_bytes_concat(x: Seq<char>, y: Seq<char>)
    ensures
        char_bytes(x + y) == char_bytes(x) + char_bytes(y),
{
    assert(char_bytes(x + y) =~= char_bytes(x) + char_bytes(y));
}

proof fn lemma_two_digits_back(b: Seq<u8>, i: int)
    requires
        0 <= i,
        i + 2 <= b.len(),
        all_dec(b, i, i + 2),
    ensures
        0 <= dec_value(b, i, i + 2) < 100,
        char_bytes(two_digits(dec_value(b, i, i + 2) as nat)) == b.subrange(i, i + 2),
{
    let t = b.subrange(i, i + 2);
    let x = b[i] - 48;
    let y = b[i + 1] - 48;
    assert(t.drop_last().drop_last().len() == 0);
    assert(t.drop_last().last() == b[i]);
    assert(t.last() == b[i + 1]);
    assert(crate::text::digits_value(t.drop_last().drop_last(), 10) == 0);
    assert(crate::text::digits_value(t.drop_last(), 10) == x);
    assert(crate::text::digits_value(t, 10) == x * 10 + y);
    let n = (x * 10 + y) as nat;
    assert(n / 10 == x && n % 10 == y);
    lemma_two_digits(n);
    let c0 = (48 + n / 10) as char;
    let c1 = (48 + n % 10) as char;
    assert((c0 as u32) as u8 == b[i]);
    assert((c1 as u32) as u8 == b[i + 1]);
    assert(char_bytes(seq![c0, c1]) =~= t);
}

proof fn lemma_three_digits_back(b: Seq<u8>, i: int)
    requires
        0 <= i,
        i + 3 <= b.len(),
        all_dec(b, i, i + 3),
    ensures
        0 <= dec_value(b, i, i + 3) < 1000,
        char_bytes(zero_padded(radix_chars(dec_value(b, i, i + 3) as nat, 10), 3)) == b.subrange(i, i + 3),
{
    let t = b.subrange(i, i + 3);
    let x = b[i] - 48;
    let y = b[i + 1] - 48;
    let z = b[i + 2] - 48;
    assert(t.drop_last().drop_last().drop_last().len() == 0);
    assert(t.drop_last().drop_last().last() == b[i]);
    assert(t.drop_last().last() == b[i + 1]);
    assert(t.last() == b[i + 2]);
    assert(crate::text::digits_value(t.drop_last().drop_last().drop_last(), 10) == 0);
    assert(crate::text::digits_value(t.drop_last().drop_last(), 10) == x);
    assert(crate::text::digits_value(t.drop_last(), 10) == x * 10 + y);
    assert(crate::text::digits_value(t, 10) == (x * 10 + y) * 10 + z);
    let n = ((x * 10 + y) * 10 + z) as nat;
    assert(n / 100 == x && (n / 10) % 10 == y && n % 10 == z);
    lemma_three_digits(n);
    let c0 = (48 + n / 100) as char;
    let c1 = (48 + (n / 10) % 10) as char;
    let c2 = (48 + n % 10) as char;
    assert((c0 as u32) as u8 == b[i]);
    assert((c1 as u32) as u8 == b[i + 1]);
    assert((c2 as u32) as u8 == b[i + 2]);
    assert(char_bytes(seq![c0, c1, c2]) =~= t);
}

/// A timestamp read from a line is written back as the same seven characters.
pub proof fn timestamp_text_writes_back(b: Seq<u8>, i: int)
    requires
        ts_form(b, i),
    ensures
        char_bytes(spec_timestamp_text(ts_value(b, i))) == b.subrange(i, i + 7),
{
    assert(all_dec(b, i, i + 2) && all_dec(b, i + 2, i + 4) && all_dec(b, i + 4, i + 6));
    lemma_two_digits_back(b, i);
    lemma_two_digits_back(b, i + 2);
    lemma_two_digits_back(b, i + 4);
    let a = two_digits(dec_value(b, i, i + 2) as nat);
    let m = two_digits(dec_value(b, i + 2, i + 4) as nat);
    let e = two_digits(dec_value(b, i + 4, i + 6) as nat);
    let c = b[i + 6];
    let last: char = if c == 104u8 {
        'h'
    } else if c == 122u8 {
        'z'
    } else {
        '/'
    };
    assert(spec_timestamp_text(ts_value(b, i)) == a + m + e + seq![last]);
    lemma_char_bytes_concat(a + m + e, seq![last]);
    lemma_char_bytes_concat(a + m, e);
    lemma_char_bytes_concat(a, m);
    assert(char_bytes(seq![last]) =~= seq![c]);
    assert(b.subrange(i, i + 7) =~= b.subrange(i, i + 2) + b.subrange(i + 2, i + 4) + b.subrange(
        i + 4,
        i + 6,
    ) + seq![c]);
}

/// A course/speed extension of digits read from a line is written back as the same seven
/// characters.
pub proof fn course_speed_text_writes_back(b: Seq<u8>, i: int)
    requires
        0 <= i,
        i + 7 <= b.len(),
        all_dec(b, i, i + 3),
        b[i + 3] == 47u8,
        all_dec(b, i + 4, i + 7),
    ensures
        course_speed_form(b, i),
        char_bytes(
            spec_extension_text(
                PositionReportDataExtension::CourseSpeed {
                    course: three_spec(b, i)->0,
                    speed: three_spec(b, i + 4)->0,
                },
            ),
        ) == b.subrange(i, i + 7),
{
    lemma_three_digits_back(b, i);
    lemma_three_digits_back(b, i + 4);
    let c = zero_padded(radix_chars(dec_value(b, i, i + 3) as nat, 10), 3);
    let v = zero_padded(radix_chars(dec_value(b, i + 4, i + 7) as nat, 10), 3);
    assert(spec_extension_text(
        PositionReportDataExtension::CourseSpeed {
            course: three_spec(b, i)->0,
            speed: three_spec(b, i + 4)->0,
        },
    ) == c + seq!['/'] + v);
    lemma_char_bytes_concat(c + seq!['/'], v);
    lemma_char_bytes_concat(c, seq!['/']);
    assert(char_bytes(seq!['/']) =~= seq![47u8]);
    assert(b.subrange(i, i + 7) =~= b.subrange(i, i + 3) + seq![47u8] + b.subrange(i + 4, i + 7));
}

proof fn lemma_parse_two_digits(b: Seq<u8>, i: int, signed: bool, min: int, max: int)
    requires
        0 <= i,
        i + 2 <= b.len(),
        48 <= b[i] <= 57,
        48 <= b[i + 1] <= 57,
        min <= 0,
        99 <= max,
    ensures
        parse_int_spec(b.subrange(i, i + 2), 10, signed, min, max) == Some(
            (b[i] - 48) * 10 + (b[i + 1] - 48),
        ),
{
    let t = b.subrange(i, i + 2);
    assert(t[0] == b[i]);
    assert(crate::text::all_radix_digits(t, 10)) by {
        assert forall|q: int| 0 <= q < t.len() implies crate::text::is_radix_digit(#[trigger] t[q], 10) by {
            assert(t[q] == b[i + q]);
        }
    }
    assert(t.drop_last().drop_last().len() == 0);
    assert(t.drop_last().last() == b[i]);
    assert(t.last() == b[i + 1]);
    assert(crate::text::digits_value(t.drop_last().drop_last(), 10) == 0);
    assert(crate::text::digits_value(t.drop_last(), 10) == b[i] - 48);
}

proof fn lemma_parse_three_digits(b: Seq<u8>, i: int)
    requires
        0 <= i,
        i + 3 <= b.len(),
        48 <= b[i] <= 57,
        48 <= b[i + 1] <= 57,
        48 <= b[i + 2] <= 57,
    ensures
        parse_int_spec(b.subrange(i, i + 3), 10, false, 0, 65535) == Some(
            ((b[i] - 48) * 10 + (b[i + 1] - 48)) * 10 + (b[i + 2] - 48),
        ),
{
    let t = b.subrange(i, i + 3);
    assert(t[0] == b[i]);
    assert(crate::text::all_radix_digits(t, 10)) by {
        assert forall|q: int| 0 <= q < t.len() implies crate::text::is_radix_digit(#[trigger] t[q], 10) by {
            assert(t[q] == b[i + q]);
        }
    }
    assert(t.drop_last().drop_last().drop_last().len() == 0);
    assert(t.drop_last().drop_last().last() == b[i]);
    assert(t.drop_last().last() == b[i + 1]);
    assert(t.last() == b[i + 2]);
    assert(crate::text::digits_value(t.drop_last().drop_last().drop_last(), 10) == 0);
    assert(crate::text::digits_value(t.drop_last().drop_last(), 10) == b[i] - 48);
    assert(crate::text::digits_value(t.drop_last(), 10) == (b[i] - 48) * 10 + (b[i + 1] - 48));
}

/// A latitude written in full, `DDMM.HH` then `N` or `S`, has the grammar's form and reads as
/// DD degrees, MM minutes and HH (the hundredths of a minute) as seconds, with four digits
/// given, in the northern hemisphere for `N` and the southern one for `S`.
pub proof fn full_latitude_reads_as_written(b: Seq<u8>, j: int)
    requires
        0 <= j,
        j + 8 <= b.len(),
        forall|q: int| (j <= q < j + 4 || j + 5 <= q < j + 7) ==> 48 <= #[trigger] b[q] <= 57,
        b[j + 4] == 46u8,
        b[j + 7] == 78u8 || b[j + 7] == 83u8,
    ensures
        lat_form(b, j),
        latlon_spec(b, j, j + 8) == Some(
            (
                Angle {
                    degrees: ((b[j] - 48) * 10 + (b[j + 1] - 48)) as u16,
                    minutes: ((b[j + 2] - 48) * 10 + (b[j + 3] - 48)) as i32,
                    seconds: ((b[j + 5] - 48) * 10 + (b[j + 6] - 48)) as i32,
                    bearing: if b[j + 7] == 78u8 {
                        Bearing::North
                    } else {
                        Bearing::South
                    },
                },
                4u8,
            ),
        ),
{
    assert(48 <= b[j] <= 57 && 48 <= b[j + 1] <= 57 && 48 <= b[j + 2] <= 57 && 48 <= b[j + 3] <= 57);
    assert(48 <= b[j + 5] <= 57 && 48 <= b[j + 6] <= 57);
    assert(lat_form(b, j));
    lemma_latlon_cuts(b, j, 8);
    lemma_parse_two_digits(b, j, false, 0, 65535);
    lemma_parse_two_digits(b, j + 2, true, i32::MIN as int, i32::MAX as int);
    lemma_parse_two_digits(b, j + 5, true, i32::MIN as int, i32::MAX as int);
}

/// A longitude written in full, `DDDMM.HH` then `E` or `W`, has the grammar's form and reads
/// as DDD degrees, MM minutes and HH as seconds, with four digits given, east for `E` and
/// west for `W`.
pub proof fn full_longitude_reads_as_written(b: Seq<u8>, j: int)
    requires
        0 <= j,
        j + 9 <= b.len(),
        forall|q: int| (j <= q < j + 5 || j + 6 <= q < j + 8) ==> 48 <= #[trigger] b[q] <= 57,
        b[j + 5] == 46u8,
        b[j + 8] == 69u8 || b[j + 8] == 87u8,
    ensures
        lon_form(b, j),
        latlon_spec(b, j, j + 9) == Some(
            (
                Angle {
                    degrees: (((b[j] - 48) * 10 + (b[j + 1] - 48)) * 10 + (b[j + 2] - 48)) as u16,
                    minutes: ((b[j + 3] - 48) * 10 + (b[j + 4] - 48)) as i32,
                    seconds: ((b[j + 6] - 48) * 10 + (b[j + 7] - 48)) as i32,
                    bearing: if b[j + 8] == 69u8 {
                        Bearing::East
                    } else {
                        Bearing::West
                    },
                },
                4u8,
            ),
        ),
{
    assert(48 <= b[j] <= 57 && 48 <= b[j + 1] <= 57 && 48 <= b[j + 2] <= 57 && 48 <= b[j + 3] <= 57
        && 48 <= b[j + 4] <= 57);
    assert(48 <= b[j + 6] <= 57 && 48 <= b[j + 7] <= 57);
    assert(lon_form(b, j));
    lemma_latlon_cuts(b, j, 9);
    lemma_parse_three_digits(b, j);
    lemma_parse_two_digits(b, j + 3, true, i32::MIN as int, i32::MAX as int);
    lemma_parse_two_digits(b, j + 6, true, i32::MIN as int, i32::MAX as int);
}

/// The bearing of every coordinate that reads is the one its hemisphere letter (the last
/// character) names: `N` north, `S` south, `E` east, `W` west.
pub proof fn coordinate_bearing_is_its_letter(b: Seq<u8>, a: int, e: int)
    requires
        0 <= a <= e <= b.len(),
        latlon_spec(b, a, e) is Some,
    ensures
        ({
            let bearing = (latlon_spec(b, a, e)->0).0.bearing;
            &&& (bearing == Bearing::North <==> b[e - 1] == 78u8)
            &&& (bearing == Bearing::South <==> b[e - 1] == 83u8)
            &&& (bearing == Bearing::East <==> b[e - 1] == 69u8)
            &&& (bearing == Bearing::West <==> b[e - 1] == 87u8)
        }),
{
    lemma_find_byte(b, 46u8, a, e);
    let p = find_byte(b, 46u8, a, e);
    assert(e == p + 4);
    assert(bearing_of(b[p + 3]) is Some);
    assert((latlon_spec(b, a, e)->0).0.bearing == bearing_of(b[e - 1])->0);
    let c = b[e - 1];
    assert(c == 78u8 || c == 83u8 || c == 69u8 || c == 87u8);
}

/// Position ambiguity in a pair of minutes or hundredths: two spaces read as 0 with no digit
/// given, a digit then a space as ten times the digit with one digit given, two digits as
/// their number with both given.
pub proof fn ambiguous_pairs_read_as_written(b: Seq<u8>, a: int)
    requires
        0 <= a,
        a + 2 <= b.len(),
    ensures
        b[a] == 32u8 && b[a + 1] == 32u8 ==> ambiguous_pair_spec(b, a, a + 2) == Some((0i32, 0u8)),
        48 <= b[a] <= 57 && b[a + 1] == 32u8 ==> ambiguous_pair_spec(b, a, a + 2) == Some(
            (((b[a] - 48) * 10) as i32, 1u8),
        ),
        48 <= b[a] <= 57 && 48 <= b[a + 1] <= 57 ==> ambiguous_pair_spec(b, a, a + 2) == Some(
            (((b[a] - 48) * 10 + (b[a + 1] - 48)) as i32, 2u8),
        ),
{
    if 48 <= b[a] <= 57 && b[a + 1] == 32u8 {
        let t = b.subrange(a, a + 1);
        assert(t[0] == b[a]);
        assert(crate::text::all_radix_digits(t, 10));
        assert(t.drop_last().len() == 0);
        assert(t.last() == b[a]);
        assert(crate::text::digits_value(t.drop_last(), 10) == 0);
    }
    if 48 <= b[a] <= 57 && 48 <= b[a + 1] <= 57 {
        lemma_parse_two_digits(b, a, true, i32::MIN as int, i32::MAX as int);
    }
}

/// In every line that reads as a report, the position holds what its coordinate texts read
/// as: an eight-byte latitude ending in `N` or `S`, the symbol table byte, then a nine-byte
/// longitude ending in `E` or `W`.
pub proof fn parsed_position_is_its_text(b: Seq<u8>)
    requires
        parse_spec(b) is Parsed,
    ensures
        exists|j: int|
            0 <= j && j + 19 <= b.len() && (b[j + 7] == 78u8 || b[j + 7] == 83u8) && (b[j + 17]
                == 69u8 || b[j + 17] == 87u8) && #[trigger] latlon_spec(b, j, j + 8) == Some(
                ((parse_spec(b)->Parsed_0).position.latitude, (parse_spec(b)->Parsed_0).position.lat_digits),
            ) && latlon_spec(b, j + 9, j + 18) == Some(
                ((parse_spec(b)->Parsed_0).position.longitude, (parse_spec(b)->Parsed_0).position.lon_digits),
            ),
{
    match prefix_spec(b) {
        PrefixOutcome::Ready(t, j) => {
            assert(uncompressed_form(b, j));
            assert(latlon_spec(b, j, j + 8) == Some(
                ((parse_spec(b)->Parsed_0).position.latitude, (parse_spec(b)->Parsed_0).position.lat_digits),
            ));
        },
        _ => {},
    }
}

/// Reads APRS lines.
pub struct APRSParser;

impl APRSParser {
    /// Reads the line `s` into a report.
    pub fn parse(&self, s: &str) -> (r: Result<Report, ParseError>)
        requires
            is_supported_spec(s.spec_bytes()),
        ensures
            match (r, parse_spec(s.spec_bytes())) {
                (Ok(Report::PositionReport(rep)), ParseOutcome::Parsed(v)) => rep@ == v,
                (Err(e), ParseOutcome::Failed(f)) => e == f,
                _ => false,
            },
    {
        match parse_position_report(s) {
            Ok(rep) => Ok(Report::PositionReport(rep)),
            Err(e) => Err(e),
        }
    }

    /// Reads a pair of minutes or seconds characters where trailing digits may be spaces
    /// (position ambiguity): the value, and the number of digits given.
    pub fn parse_ambiguous_number_pair(s: &str) -> (r: Result<(i32, u8), ParseError>)
        requires
            ambiguous_pair_cuts(s.spec_bytes(), 0, s.spec_bytes().len() as int),
        ensures
            match (r, ambiguous_pair_spec(s.spec_bytes(), 0, s.spec_bytes().len() as int)) {
                (Ok(x), Some(y)) => x == y,
                (Err(e), None) => e == ParseError::InvalidCoordinate,
                _ => false,
            },
    {
        let b = s.as_bytes();
        match ambiguous_pair(b, 0, b.len()) {
            Some(x) => Ok(x),
            None => Err(ParseError::InvalidCoordinate),
        }
    }

    /// The instant at time of day `time` on yesterday, today or tomorrow that is closest to
    /// `now` (today on a tie).
    pub fn guess_date(time: TimeOfDay, now: i128) -> (r: i128)
        requires
            time.wf(),
            valid_instant(now as int),
        ensures
            r == spec_guess_closest_date(time.secs(), now as int),
    {
        let (days, _) = split_day(now);
        let today = days * NANOS_PER_DAY + time.nanos_from_midnight();
        let yesterday = today - NANOS_PER_DAY;
        let tomorrow = today + NANOS_PER_DAY;
        let from_now = abs_diff(now, today);
        let from_yesterday = abs_diff(now, yesterday);
        let to_tomorrow = abs_diff(now, tomorrow);
        if from_yesterday < from_now && from_yesterday < to_tomorrow {
            yesterday
        } else if to_tomorrow < from_now && to_tomorrow < from_yesterday {
            tomorrow
        } else {
            today
        }
    }
}

pub open spec fn abs(x: int) -> int {
    if x < 0 {
        -x
    } else {
        x
    }
}

/// The instant at time of day `secs` (in seconds) on yesterday, today or tomorrow closest to
/// `now`, today on a tie.
pub open spec fn spec_guess_closest_date(secs: int, now: int) -> int {
    let today = day_start(now) + secs * 1_000_000_000;
    let n = abs(now - today);
    let y = abs(now - (today - 86_400_000_000_000));
    let t = abs(now - (today + 86_400_000_000_000));
    if y < n && y < t {
        today - 86_400_000_000_000
    } else if t < n && t < y {
        today + 86_400_000_000_000
    } else {
        today
    }
}

fn abs_diff(a: i128, b: i128) -> (r: i128)
    requires
        valid_instant(a as int),
        -0x1_0000_0000_0000_0000_0000 <= b <= 0x1_0000_0000_0000_0000_0000,
    ensures
        r == abs(a - b),
{
    if a >= b {
        a - b
    } else {
        b - a
    }
}

} // verus!
