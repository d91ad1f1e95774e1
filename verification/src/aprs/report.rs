//! The content of an APRS report.
use crate::aprs::time::{valid_instant, APRSTimestamp, GuessError};
use crate::text::{push_char, push_padded, radix_chars, zero_padded};
use vstd::prelude::*;
use vstd::utf8::encode_utf8;

verus! {

/// Symbol table identifier and symbol code.
pub type Symbol = [u8; 2];

/// The hemisphere letter of a coordinate.
#[derive(Clone, Copy, Debug, PartialEq, Eq, Structural)]
pub enum Bearing {
    North,
    East,
    South,
    West,
}

/// A coordinate as the report writes it: degrees, minutes, and the two digits after the
/// minutes' decimal point, taken as seconds.
#[derive(Clone, Copy, Debug, PartialEq, Eq, Structural)]
pub struct Angle {
    pub degrees: u16,
    pub minutes: i32,
    pub seconds: i32,
    pub bearing: Bearing,
}

/// The position of a report, with the number of digits given of each coordinate's minutes
/// (position ambiguity replaces trailing digits with spaces).
#[derive(Clone, Copy, Debug, PartialEq, Eq, Structural)]
pub struct PositionReportCoordinates {
    pub latitude: Angle,
    pub longitude: Angle,
    /// Number of given digits
    pub lat_digits: u8,
    pub lon_digits: u8,
}

/// A decimal number as written: `digits / 10^scale`, negated where `negative`.
#[derive(Clone, Copy, Debug, PartialEq, Eq, Structural)]
pub struct Decimal {
    pub negative: bool,
    pub digits: u64,
    pub scale: u32,
}

impl Decimal {
    /// The numerator of the value over `10^scale`.
    pub open spec fn numerator(self) -> int {
        if self.negative {
            -(self.digits as int)
        } else {
            self.digits as int
        }
    }
}

#[derive(Clone, Copy, Debug, PartialEq, Eq)]
pub enum PositionReportDataExtension {
    CourseSpeed {
        /// If 0, invalid.
        course: u32,
        speed: u32,
    },
    PHG,
    RadioRange,
    DFSSignalStrength,
    CompressedData { cs: [u8; 2], indicator: u8 },
}

/// The course that a data extension gives, where it gives one.
pub open spec fn spec_course(de: PositionReportDataExtension) -> Option<u32> {
    match de {
        PositionReportDataExtension::CourseSpeed { course, .. } => if course != 0 {
            Some(course)
        } else {
            None
        },
        PositionReportDataExtension::CompressedData { cs, .. } => if 33 <= cs[0] <= 122 {
            Some(((cs[0] - 33) * 4) as u32)
        } else {
            None
        },
        _ => None,
    }
}

/// The course of compressed data is computed in a byte: it exceeds one where the course
/// character is 'a' or later.
pub open spec fn course_fits(de: PositionReportDataExtension) -> bool {
    match de {
        PositionReportDataExtension::CompressedData { cs, .. } => !(33 <= cs[0] <= 122) || (cs[0]
            - 33) * 4 < 256,
        _ => true,
    }
}

impl PositionReportDataExtension {
    pub fn compressed_from_chars(chars: [u8; 3]) -> (r: Self)
        ensures
            r == (PositionReportDataExtension::CompressedData {
                cs: [chars[0], chars[1]],
                indicator: chars[2],
            }),
    {
        PositionReportDataExtension::CompressedData { cs: [chars[0], chars[1]], indicator: chars[2] }
    }

    pub fn course(&self) -> (r: Option<u32>)
        requires
            course_fits(*self),
        ensures
            r == spec_course(*self),
    {
        match self {
            PositionReportDataExtension::CourseSpeed { course, .. } => {
                if *course != 0 {
                    Some(*course)
                } else {
                    None
                }
            },
            PositionReportDataExtension::CompressedData { cs, .. } => {
                if 33 <= cs[0] && cs[0] <= 122 {
                    Some(((cs[0] - 33) * 4) as u32)
                } else {
                    None
                }
            },
            _ => None,
        }
    }

    /// The data extension as the report writes it (PHG, range and direction-finding
    /// extensions have no written form).
    pub fn to_aprs_string(&self) -> (r: String)
        requires
            self is CourseSpeed || self is CompressedData,
        ensures
            r@ == spec_extension_text(*self),
    {
        let mut s = String::new();
        match self {
            PositionReportDataExtension::CourseSpeed { course, speed } => {
                push_padded(&mut s, *course as u64, 10, 3);
                push_char(&mut s, '/');
                push_padded(&mut s, *speed as u64, 10, 3);
            },
            PositionReportDataExtension::CompressedData { cs, indicator } => {
                push_char(&mut s, cs[0] as char);
                push_char(&mut s, cs[1] as char);
                push_char(&mut s, *indicator as char);
            },
            _ => {},
        }
        s
    }
}

pub open spec fn spec_extension_text(de: PositionReportDataExtension) -> Seq<char> {
    match de {
        PositionReportDataExtension::CourseSpeed { course, speed } => zero_padded(
            radix_chars(course as nat, 10),
            3,
        ) + seq!['/'] + zero_padded(radix_chars(speed as nat, 10), 3),
        PositionReportDataExtension::CompressedData { cs, indicator } => seq![
            cs[0] as char,
            cs[1] as char,
            indicator as char,
        ],
        _ => Seq::empty(),
    }
}

pub open spec fn two_digits(n: nat) -> Seq<char> {
    zero_padded(radix_chars(n, 10), 2)
}

/// The timestamp as a report writes it: `hhmmss` then `h`, or `ddhhmm` then `z` (UTC) or `/`.
pub open spec fn spec_timestamp_text(t: APRSTimestamp) -> Seq<char> {
    match t {
        APRSTimestamp::HMS(time) => two_digits(time.hour as nat) + two_digits(time.minute as nat)
            + two_digits(time.second as nat) + seq!['h'],
        APRSTimestamp::DHM(dhm) => two_digits(dhm.day as nat) + two_digits(dhm.time.hour as nat)
            + two_digits(dhm.time.minute as nat) + seq![if dhm.utc { 'z' } else { '/' }],
    }
}

impl APRSTimestamp {
    pub fn to_aprs_string(&self) -> (r: String)
        ensures
            r@ == spec_timestamp_text(*self),
    {
        let mut s = String::new();
        match self {
            APRSTimestamp::HMS(time) => {
                push_padded(&mut s, time.hour as u64, 10, 2);
                push_padded(&mut s, time.minute as u64, 10, 2);
                push_padded(&mut s, time.second as u64, 10, 2);
                push_char(&mut s, 'h');
            },
            APRSTimestamp::DHM(dhm) => {
                push_padded(&mut s, dhm.day as u64, 10, 2);
                push_padded(&mut s, dhm.time.hour as u64, 10, 2);
                push_padded(&mut s, dhm.time.minute as u64, 10, 2);
                push_char(&mut s, if dhm.utc { 'z' } else { '/' });
            },
        }
        s
    }
}

#[derive(Clone, Debug)]
pub enum Comment {
    /// Altitude AMSL in feet
    Altitude(Decimal),
    /// Third decimal digit to add to the seconds of lat and lon data.
    PositionPrecisionEnhancement { lat: u8, lon: u8 },
    Id(String),
    /// Flight level, i.e. altitude at 1013.25 hpa in hundreds of feet.
    FlightLevel(Decimal),
    /// Vertical speed in feet/m,
    ClimbRate(Decimal),
    /// Turning rate in degrees/min, positive is clockwise
    TurningRate(Decimal),
    Unknown(String),
}

/// A comment with its text taken as UTF-8 bytes.
pub enum CommentView {
    Altitude(Decimal),
    PositionPrecisionEnhancement { lat: u8, lon: u8 },
    Id(Seq<u8>),
    FlightLevel(Decimal),
    ClimbRate(Decimal),
    TurningRate(Decimal),
    Unknown(Seq<u8>),
}

impl View for Comment {
    type V = CommentView;

    open spec fn view(&self) -> CommentView {
        match self {
            Comment::Altitude(a) => CommentView::Altitude(*a),
            Comment::PositionPrecisionEnhancement { lat, lon } => CommentView::PositionPrecisionEnhancement {
                lat: *lat,
                lon: *lon,
            },
            Comment::Id(s) => CommentView::Id(encode_utf8(s@)),
            Comment::FlightLevel(a) => CommentView::FlightLevel(*a),
            Comment::ClimbRate(a) => CommentView::ClimbRate(*a),
            Comment::TurningRate(a) => CommentView::TurningRate(*a),
            Comment::Unknown(s) => CommentView::Unknown(encode_utf8(s@)),
        }
    }
}

pub open spec fn comments_view(cs: Seq<Comment>) -> Seq<CommentView> {
    cs.map_values(|c: Comment| c@)
}

/// The first altitude among the comments.
pub open spec fn first_altitude(cs: Seq<CommentView>) -> Option<Decimal>
    decreases cs.len(),
{
    if cs.len() == 0 {
        None
    } else {
        match cs[0] {
            CommentView::Altitude(a) => Some(a),
            _ => first_altitude(cs.drop_first()),
        }
    }
}

/// The first position precision enhancement among the comments.
pub open spec fn first_enhancement(cs: Seq<CommentView>) -> Option<(u8, u8)>
    decreases cs.len(),
{
    if cs.len() == 0 {
        None
    } else {
        match cs[0] {
            CommentView::PositionPrecisionEnhancement { lat, lon } => Some((lat, lon)),
            _ => first_enhancement(cs.drop_first()),
        }
    }
}

/// The first identifier among the comments.
pub open spec fn first_id(cs: Seq<CommentView>) -> Option<Seq<u8>>
    decreases cs.len(),
{
    if cs.len() == 0 {
        None
    } else {
        match cs[0] {
            CommentView::Id(id) => Some(id),
            _ => first_id(cs.drop_first()),
        }
    }
}

/// The text of the first identifier among the comments.
pub open spec fn first_id_text(cs: Seq<Comment>) -> Option<Seq<char>>
    decreases cs.len(),
{
    if cs.len() == 0 {
        None
    } else {
        match cs[0] {
            Comment::Id(id) => Some(id@),
            _ => first_id_text(cs.drop_first()),
        }
    }
}

#[derive(Clone, Debug)]
pub struct PositionReport {
    pub timestamp: Option<APRSTimestamp>,
    pub symbol: Symbol,
    pub position: PositionReportCoordinates,
    pub data_extension: Option<PositionReportDataExtension>,
    pub comments: Vec<Comment>,
}

impl PositionReport {
    pub fn course(&self) -> (r: Option<u32>)
        requires
            self.data_extension matches Some(de) ==> course_fits(de),
        ensures
            r == (match self.data_extension {
                Some(de) => spec_course(de),
                None => None,
            }),
    {
        match &self.data_extension {
            Some(de) => de.course(),
            None => None,
        }
    }

    /// The altitude of the first altitude comment.
    pub fn altitude(&self) -> (r: Option<Decimal>)
        ensures
            r == first_altitude(comments_view(self.comments@)),
    {
        let ghost all = comments_view(self.comments@);
        let mut i: usize = 0;
        assert(all.skip(0) =~= all);
        while i < self.comments.len()
            invariant
                0 <= i <= self.comments.len(),
                all == comments_view(self.comments@),
                first_altitude(all) == first_altitude(all.skip(i as int)),
            decreases self.comments.len() - i,
        {
            assert(all.skip(i as int).drop_first() =~= all.skip(i + 1));
            assert(all.skip(i as int)[0] == self.comments@[i as int]@);
            match &self.comments[i] {
                Comment::Altitude(a) => {
                    return Some(*a);
                },
                _ => {},
            }
            i = i + 1;
        }
        assert(all.skip(i as int).len() == 0);
        None
    }

    /// The lat/lon digits of the first position precision enhancement comment.
    pub fn position_precision_enhancement(&self) -> (r: Option<(u8, u8)>)
        ensures
            r == first_enhancement(comments_view(self.comments@)),
    {
        let ghost all = comments_view(self.comments@);
        let mut i: usize = 0;
        assert(all.skip(0) =~= all);
        while i < self.comments.len()
            invariant
                0 <= i <= self.comments.len(),
                all == comments_view(self.comments@),
                first_enhancement(all) == first_enhancement(all.skip(i as int)),
            decreases self.comments.len() - i,
        {
            assert(all.skip(i as int).drop_first() =~= all.skip(i + 1));
            assert(all.skip(i as int)[0] == self.comments@[i as int]@);
            match &self.comments[i] {
                Comment::PositionPrecisionEnhancement { lat, lon } => {
                    return Some((*lat, *lon));
                },
                _ => {},
            }
            i = i + 1;
        }
        assert(all.skip(i as int).len() == 0);
        None
    }

    /// The identifier of the first id comment: the device that sent the report.
    pub fn id(&self) -> (r: Option<String>)
        ensures
            match (r, first_id(comments_view(self.comments@))) {
                (Some(s), Some(b)) => encode_utf8(s@) == b,
                (None, None) => true,
                _ => false,
            },
            match (r, first_id_text(self.comments@)) {
                (Some(s), Some(t)) => s@ == t,
                (None, None) => true,
                _ => false,
            },
    {
        let ghost all = comments_view(self.comments@);
        let mut i: usize = 0;
        assert(all.skip(0) =~= all);
        assert(self.comments@.skip(0) =~= self.comments@);
        while i < self.comments.len()
            invariant
                0 <= i <= self.comments.len(),
                all == comments_view(self.comments@),
                first_id(all) == first_id(all.skip(i as int)),
                first_id_text(self.comments@) == first_id_text(self.comments@.skip(i as int)),
            decreases self.comments.len() - i,
        {
            assert(all.skip(i as int).drop_first() =~= all.skip(i + 1));
            assert(self.comments@.skip(i as int).drop_first() =~= self.comments@.skip(i + 1));
            assert(self.comments@.skip(i as int)[0] == self.comments@[i as int]);
            assert(all.skip(i as int)[0] == self.comments@[i as int]@);
            match &self.comments[i] {
                Comment::Id(id) => {
                    return Some(id.clone());
                },
                _ => {},
            }
            i = i + 1;
        }
        assert(all.skip(i as int).len() == 0);
        assert(self.comments@.skip(i as int).len() == 0);
        None
    }
}

#[derive(Clone, Debug)]
pub struct StatusReport {
    pub timestamp: APRSTimestamp,
    pub text: String,
}

impl StatusReport {
    /// The report as written: the timestamp, then the text.
    pub fn to_aprs_string(&self) -> (r: String)
        ensures
            r@ == spec_timestamp_text(self.timestamp) + self.text@,
    {
        let mut s = self.timestamp.to_aprs_string();
        s.append(self.text.as_str());
        s
    }
}

#[derive(Clone, Debug)]
pub enum Report {
    PositionReport(PositionReport),
    StatusReport(StatusReport),
}

impl Report {
    pub open spec fn spec_timestamp(&self) -> Option<APRSTimestamp> {
        match self {
            Report::PositionReport(r) => r.timestamp,
            Report::StatusReport(r) => Some(r.timestamp),
        }
    }

    pub fn timestamp(&self) -> (r: Option<APRSTimestamp>)
        ensures
            r == self.spec_timestamp(),
    {
        match self {
            Report::PositionReport(report) => report.timestamp,
            Report::StatusReport(report) => Some(report.timestamp),
        }
    }

    /// The instant of the report, guessed from its timestamp and the current instant.
    pub fn datetime_with_now(&self, now: i128) -> (r: Option<Result<i128, GuessError>>)
        requires
            self.spec_timestamp() matches Some(t) ==> t.wf(),
            valid_instant(now as int),
        ensures
            match (r, self.spec_timestamp()) {
                (None, None) => true,
                (Some(g), Some(t)) => match (g, t.spec_guess_datetime(now as int)) {
                    (Ok(a), Ok(b)) => a == b,
                    (Err(a), Err(b)) => a == b,
                    _ => false,
                },
                _ => false,
            },
    {
        match self.timestamp() {
            Some(t) => Some(t.guess_datetime(now)),
            None => None,
        }
    }
}

/// Base 91 digits of `n`, most significant first: each digit is written as the character
/// `'!'` plus its value (the most significant digit may reach 91).
pub open spec fn base91_chars(n: nat) -> Seq<char>
    decreases n,
{
    if n > 91 {
        base91_chars(n / 91).push(((n % 91) + 33) as char)
    } else {
        seq![(n + 33) as char]
    }
}

/// A number written in base 91.
#[derive(Copy, Clone, Debug, Default)]
pub struct Base91(pub u32);

impl Base91 {
    pub fn to_string(&self) -> (r: String)
        ensures
            r@ == base91_chars(self.0 as nat),
    {
        let mut s = String::new();
        push_base91(&mut s, self.0);
        s
    }

    /// The digits, preceded by `'!'` up to `width` characters (as `{:!>width}` formats them).
    pub fn to_string_padded(&self, width: usize) -> (r: String)
        ensures
            r@ == padded_with(base91_chars(self.0 as nat), '!', width as nat),
    {
        let digits = self.to_string();
        let n = digits.unicode_len();
        let mut s = String::new();
        let mut i = n;
        while i < width
            invariant
                n <= i,
                i <= width || i == n,
                s@ =~= Seq::new((i - n) as nat, |q: int| '!'),
            decreases width - i,
        {
            push_char(&mut s, '!');
            i = i + 1;
        }
        s.append(digits.as_str());
        s
    }
}

/// `s` preceded by as many `fill` as make it `width` long.
pub open spec fn padded_with(s: Seq<char>, fill: char, width: nat) -> Seq<char> {
    if s.len() >= width {
        s
    } else {
        Seq::new((width - s.len()) as nat, |i: int| fill) + s
    }
}

fn push_base91(s: &mut String, n: u32)
    ensures
        final(s)@ == old(s)@ + base91_chars(n as nat),
    decreases n,
{
    if n > 91 {
        push_base91(s, n / 91);
        push_char(s, ((n % 91) as u8 + 33) as char);
    } else {
        push_char(s, (n as u8 + 33) as char);
    }
}

} // verus!
