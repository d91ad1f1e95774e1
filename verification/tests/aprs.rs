use chrono::{DateTime, NaiveDate, NaiveTime, Utc};
use flightlogr::aprs::parsing::{is_supported, APRSParser, ParseError};
use flightlogr::aprs::report::{
    Angle, Base91, Bearing, Comment, Decimal, PositionReport, PositionReportDataExtension, Report,
    StatusReport,
};
use flightlogr::aprs::time::{guess_date, APRSTimestamp, GuessError, TimeOfDay, DHM};

fn hms(h: u32, m: u32, s: u32) -> TimeOfDay {
    TimeOfDay::from_hms_opt(h, m, s).expect("valid time")
}

const NANOS: i128 = 1_000_000_000;
const DAY: i128 = 86_400 * NANOS;

fn nanos_of(t: DateTime<Utc>) -> i128 {
    t.timestamp() as i128 * NANOS + t.timestamp_subsec_nanos() as i128
}

fn instant(date: NaiveDate, h: u32, m: u32, s: u32) -> i128 {
    nanos_of(DateTime::<Utc>::from_naive_utc_and_offset(
        date.and_time(NaiveTime::from_hms_opt(h, m, s).unwrap()),
        Utc,
    ))
}

fn date_of(t: i128) -> NaiveDate {
    DateTime::<Utc>::from_timestamp(t.div_euclid(NANOS) as i64, t.rem_euclid(NANOS) as u32)
        .unwrap()
        .date_naive()
}

fn rfc3339(s: &str) -> i128 {
    nanos_of(DateTime::parse_from_rfc3339(s).unwrap().with_timezone(&Utc))
}

fn parse(line: &str) -> Result<PositionReport, ParseError> {
    assert!(is_supported(line));
    match APRSParser.parse(line)? {
        Report::PositionReport(r) => Ok(r),
        Report::StatusReport(_) => panic!("expected a position report"),
    }
}

#[test]
fn test_parse_example_01() {
    let report = parse("OGN123456>OGNAPP:/123456h5123.45N/00123.45W'180/025/A=001000 !W65! id07123456 -100fpm +1.0rot FL011.00 gps4x5")
        .expect("should have parsed");

    assert_eq!(report.timestamp, Some(APRSTimestamp::HMS(hms(12, 34, 56))));
    assert_eq!(report.symbol, [b'/', b'\'']);
    assert_eq!(
        report.position.latitude,
        Angle { degrees: 51, minutes: 23, seconds: 45, bearing: Bearing::North }
    );
    assert_eq!(
        report.position.longitude,
        Angle { degrees: 1, minutes: 23, seconds: 45, bearing: Bearing::West }
    );
    assert_eq!(report.position.lat_digits, 4);
    assert_eq!(report.course(), Some(180));
    assert_eq!(
        report.data_extension,
        Some(PositionReportDataExtension::CourseSpeed { course: 180, speed: 25 })
    );
    assert_eq!(report.altitude(), Some(Decimal { negative: false, digits: 1000, scale: 0 }));
    assert_eq!(report.position_precision_enhancement(), Some((6, 5)));
    assert_eq!(report.id().as_deref(), Some("07123456"));
    assert_eq!(
        report.comments.iter().find_map(|c| match c {
            &Comment::ClimbRate(cr) => Some(cr),
            _ => None,
        }),
        Some(Decimal { negative: true, digits: 100, scale: 0 })
    );
    assert_eq!(
        report.comments.iter().find_map(|c| match c {
            &Comment::TurningRate(tr) => Some(tr),
            _ => None,
        }),
        Some(Decimal { negative: false, digits: 10, scale: 1 })
    );
    assert_eq!(
        report.comments.iter().find_map(|c| match c {
            &Comment::FlightLevel(fl) => Some(fl),
            _ => None,
        }),
        Some(Decimal { negative: false, digits: 1100, scale: 2 })
    );
    assert_eq!(
        report.comments.iter().find_map(|c| match c {
            Comment::Unknown(s) => Some(s.clone()),
            _ => None,
        }),
        Some("gps4x5".to_string())
    );
    assert_eq!(report.comments.len(), 7);
}

#[test]
fn parse_glidernet_line() {
    let report = parse("FLRDDA5BA>APRS,qAS,LFMX:/160829h4415.41N/00600.03E'342/049/A=005524 id0ADDA5BA -454fpm -1.1rot 8.8dB 0e +51.2kHz gps4x5\r\n")
        .expect("should have parsed");
    assert_eq!(report.timestamp, Some(APRSTimestamp::HMS(hms(16, 8, 29))));
    assert_eq!(report.id().as_deref(), Some("0ADDA5BA"));
    assert_eq!(report.course(), Some(342));
    assert_eq!(report.altitude(), Some(Decimal { negative: false, digits: 5524, scale: 0 }));
    assert_eq!(report.position_precision_enhancement(), None);
    assert_eq!(report.comments.len(), 8);
}

#[test]
fn parse_without_timestamp_and_extension() {
    let report = parse("A>B:!4903.5 N/07201.75W- hello").expect("should have parsed");
    assert_eq!(report.timestamp, None);
    assert_eq!(report.data_extension, None);
    assert_eq!(
        report.position.latitude,
        Angle { degrees: 49, minutes: 3, seconds: 50, bearing: Bearing::North }
    );
    assert_eq!(report.position.lat_digits, 3);
    assert_eq!(report.position.lon_digits, 4);
    assert_eq!(report.symbol, [b'/', b'-']);
    assert!(matches!(&report.comments[..], [Comment::Unknown(s)] if s == "hello"));
}

#[test]
fn parse_day_hour_minute_timestamp_and_null_course() {
    let report = parse("A>B:@092345z4903.50N/07201.75W>.../   ").expect("should have parsed");
    assert_eq!(
        report.timestamp,
        Some(APRSTimestamp::DHM(DHM { day: 9, time: hms(23, 45, 0), utc: true }))
    );
    assert_eq!(
        report.data_extension,
        Some(PositionReportDataExtension::CourseSpeed { course: 0, speed: 0 })
    );
    assert_eq!(report.course(), None);
}

#[test]
fn parse_errors() {
    assert!(matches!(parse("no header"), Err(ParseError::Syntax)));
    assert!(matches!(parse(">B:/123456h5123.45N/00123.45W'"), Err(ParseError::Syntax)));
    assert!(matches!(parse("A>B:>status text"), Err(ParseError::Syntax)));
    assert!(matches!(parse("A>B:/12345xh5123.45N/00123.45W'"), Err(ParseError::Syntax)));
    assert!(matches!(parse("A>B:/123456h5123.45X/00123.45W'"), Err(ParseError::Syntax)));
    assert!(matches!(parse("A>B:/123456h51 3.45N/00123.45W'"), Err(ParseError::InvalidCoordinate)));
}

#[test]
fn unsupported_lines() {
    assert!(!is_supported("A>B:/256000h5123.45N/00123.45W'"));
    assert!(!is_supported("A>B:/123456h/5L!!<*e7g7P["));
    assert!(!is_supported("A>B:!5123.45N/00123.45W#PHG5132"));
    assert!(is_supported("A>B:!5123.45N/00123.45W#123/045"));
    assert!(is_supported("garbage"));
}

#[test]
fn test_parse_ambiguous_number() {
    assert_eq!(
        APRSParser::parse_ambiguous_number_pair("  ").expect("should parse"),
        (0, 0)
    );
    assert_eq!(
        APRSParser::parse_ambiguous_number_pair("8 ").expect("should parse"),
        (80, 1)
    );
    assert_eq!(
        APRSParser::parse_ambiguous_number_pair("82").expect("should parse"),
        (82, 2)
    );
}

#[test]
fn ambiguous_number_errors() {
    assert!(APRSParser::parse_ambiguous_number_pair(" 8").is_err());
    assert!(APRSParser::parse_ambiguous_number_pair("").is_err());
    assert!(APRSParser::parse_ambiguous_number_pair("+ ").is_err());
    assert_eq!(APRSParser::parse_ambiguous_number_pair("-7"), Ok((-7, 2)));
}

#[test]
fn test_parse_datetime() {
    let today = NaiveDate::from_ymd_opt(2022, 10, 16).unwrap();
    let morning = instant(today, 2, 0, 0);
    let evening = instant(today, 22, 0, 0);

    assert_eq!(
        date_of(APRSParser::guess_date(hms(1, 58, 0), morning)),
        NaiveDate::from_ymd_opt(2022, 10, 16).unwrap()
    );
    assert_eq!(
        date_of(APRSParser::guess_date(hms(23, 0, 0), morning)),
        NaiveDate::from_ymd_opt(2022, 10, 15).unwrap()
    );
    assert_eq!(
        date_of(APRSParser::guess_date(hms(1, 58, 0), evening)),
        NaiveDate::from_ymd_opt(2022, 10, 17).unwrap()
    );
    assert_eq!(
        date_of(APRSParser::guess_date(hms(23, 0, 0), evening)),
        NaiveDate::from_ymd_opt(2022, 10, 16).unwrap()
    );
}

#[test]
fn test_guess_datetime() {
    let today = NaiveDate::from_ymd_opt(2022, 10, 16).unwrap();
    let morning = instant(today, 2, 0, 0);
    let night = instant(today, 23, 45, 0);

    assert_eq!(
        date_of(guess_date(hms(1, 58, 0), morning).expect("should guess")),
        NaiveDate::from_ymd_opt(2022, 10, 16).unwrap()
    );
    assert_eq!(
        date_of(guess_date(hms(23, 0, 0), morning).expect("should guess")),
        NaiveDate::from_ymd_opt(2022, 10, 15).unwrap()
    );
    assert_eq!(
        date_of(guess_date(hms(23, 50, 0), night).expect("should guess")),
        NaiveDate::from_ymd_opt(2022, 10, 16).unwrap()
    );
    assert_eq!(
        date_of(guess_date(hms(0, 5, 0), night).expect("should guess")),
        NaiveDate::from_ymd_opt(2022, 10, 17).unwrap()
    );
    assert_eq!(
        date_of(guess_date(hms(1, 0, 0), night).expect("should guess")),
        NaiveDate::from_ymd_opt(2022, 10, 16).unwrap()
    );

    assert_eq!(
        APRSTimestamp::HMS(hms(1, 58, 30))
            .guess_datetime(morning)
            .expect("should guess date"),
        rfc3339("2022-10-16T01:58:30Z")
    );
    assert_eq!(
        APRSTimestamp::DHM(DHM { day: 16, time: hms(1, 57, 0), utc: true })
            .guess_datetime(morning)
            .expect("should guess date"),
        rfc3339("2022-10-16T01:57:00Z")
    );
    assert_eq!(
        APRSTimestamp::DHM(DHM { day: 15, time: hms(1, 57, 0), utc: true })
            .guess_datetime(morning)
            .expect("should guess date"),
        rfc3339("2022-10-15T01:57:00Z")
    );
    assert_eq!(
        APRSTimestamp::DHM(DHM { day: 31, time: hms(23, 56, 0), utc: true })
            .guess_datetime(rfc3339("2022-02-01T01:00:00Z"))
            .expect("should guess date"),
        rfc3339("2022-01-31T23:56:00Z")
    );
}

#[test]
fn guess_datetime_errors() {
    let now = rfc3339("2022-03-31T12:00:00Z");
    // The 31st is after the 30th of March, and February has no 30th to go back to.
    assert_eq!(
        APRSTimestamp::DHM(DHM::new(31, 1, 0, true)).guess_datetime(rfc3339("2022-03-30T12:00:00Z")),
        Err(GuessError::CouldNotGuessDate)
    );
    // No 31st in April: back to the 31st of March.
    assert_eq!(
        APRSTimestamp::DHM(DHM::new(31, 1, 0, true)).guess_datetime(rfc3339("2022-04-30T12:00:00Z")),
        Ok(rfc3339("2022-03-31T01:00:00Z"))
    );
    // Day 30 after today (the 31st of March is not after): this month.
    assert_eq!(
        APRSTimestamp::DHM(DHM::new(30, 1, 0, true)).guess_datetime(now),
        Ok(rfc3339("2022-03-30T01:00:00Z"))
    );
    // January goes back to December of the previous year.
    assert_eq!(
        APRSTimestamp::DHM(DHM::new(20, 1, 0, true)).guess_datetime(rfc3339("2022-01-10T00:00:00Z")),
        Ok(rfc3339("2021-12-20T01:00:00Z"))
    );
    assert_eq!(
        APRSTimestamp::DHM(DHM::new(16, 1, 0, false)).guess_datetime(now),
        Err(GuessError::LocalTime)
    );
}

#[test]
fn guessed_date_lies_in_the_window_before_the_leeway() {
    let now = rfc3339("2022-10-16T12:00:00Z");
    for h in 0..24 {
        for m in [0, 29, 30, 31, 59] {
            let t = guess_date(hms(h, m, 0), now).unwrap();
            assert!(t < now + 1800 * NANOS && t >= now + 1800 * NANOS - DAY);
            assert_eq!(t.rem_euclid(DAY), (h * 3600 + m * 60) as i128 * NANOS);
        }
    }
}

#[test]
fn leeway_counts_fractions_of_a_second() {
    // Midnight of the next day lies less than the leeway ahead of 23:30:00.5, not of 23:30:00.
    let now = rfc3339("2022-10-16T23:30:00.500Z");
    assert_eq!(guess_date(hms(0, 0, 0), now), Ok(rfc3339("2022-10-17T00:00:00Z")));
    let now = rfc3339("2022-10-16T23:30:00Z");
    assert_eq!(guess_date(hms(0, 0, 0), now), Ok(rfc3339("2022-10-16T00:00:00Z")));
}

#[test]
fn precision_of_timestamps() {
    assert_eq!(APRSTimestamp::HMS(hms(1, 2, 3)).precision(), 1);
    assert_eq!(APRSTimestamp::DHM(DHM::new(1, 2, 3, true)).precision(), 60);
}

#[test]
fn test_format_base91() {
    assert_eq!(Base91(0).to_string(), "!");
    assert_eq!(Base91(1).to_string(), "\"");
    assert_eq!(Base91(20427156).to_string(), "<*e7");
    assert_eq!(format!("{:!>4}", Base91(2).to_string()), "!!!#");
    assert_eq!(Base91(2).to_string_padded(4), "!!!#");
}

#[test]
fn test_compressed_cst() {
    assert_eq!(
        PositionReportDataExtension::CourseSpeed { course: 360, speed: 0 }.course(),
        Some(360)
    );
    assert_eq!(
        PositionReportDataExtension::CourseSpeed { course: 0, speed: 0 }.course(),
        None
    );

    let example_compressed_cs = PositionReportDataExtension::compressed_from_chars([b'7', b'P', b'!']);
    assert_eq!(example_compressed_cs.course(), Some(88));
}

#[test]
fn timestamps_and_extensions_as_written() {
    assert_eq!(APRSTimestamp::HMS(hms(3, 4, 56)).to_aprs_string(), "030456h");
    assert_eq!(APRSTimestamp::DHM(DHM::new(9, 23, 5, true)).to_aprs_string(), "092305z");
    assert_eq!(APRSTimestamp::DHM(DHM::new(9, 23, 5, false)).to_aprs_string(), "092305/");
    assert_eq!(
        PositionReportDataExtension::CourseSpeed { course: 120, speed: 100 }.to_aprs_string(),
        "120/100"
    );
    assert_eq!(
        PositionReportDataExtension::CompressedData { cs: [b'7', b'P'], indicator: b'[' }.to_aprs_string(),
        "7P["
    );
    let status = StatusReport { timestamp: APRSTimestamp::HMS(hms(1, 2, 3)), text: " v0.2".to_string() };
    assert_eq!(status.to_aprs_string(), "010203h v0.2");
}

#[test]
fn written_timestamp_reads_back() {
    let t = APRSTimestamp::DHM(DHM::new(9, 23, 5, true));
    let line = format!("A>B:/{}4903.50N/07201.75W>", t.to_aprs_string());
    assert_eq!(parse(&line).unwrap().timestamp, Some(t));
    let t = APRSTimestamp::HMS(hms(7, 0, 59));
    let line = format!("A>B:@{}4903.50N/07201.75W>", t.to_aprs_string());
    assert_eq!(parse(&line).unwrap().timestamp, Some(t));
}

#[test]
fn written_course_and_speed_read_back() {
    for (course, speed) in [(7, 49), (0, 0), (360, 999)] {
        let de = PositionReportDataExtension::CourseSpeed { course, speed };
        let line = format!("A>B:!4903.50N/07201.75W>{} id0ADDA5BA", de.to_aprs_string());
        assert_eq!(parse(&line).unwrap().data_extension, Some(de));
    }
}

#[test]
fn read_timestamps_and_extensions_write_back() {
    for (ts, ext) in [("092305z", "180/025"), ("010203h", "000/000"), ("311259/", "999/360")] {
        let line = format!("A>B:@{ts}4903.50N/07201.75W>{ext} id0ADDA5BA");
        let report = parse(&line).unwrap();
        assert_eq!(report.timestamp.unwrap().to_aprs_string(), ts);
        assert_eq!(report.data_extension.unwrap().to_aprs_string(), ext);
    }
}

#[test]
fn report_datetime_with_now() {
    let report = Report::StatusReport(StatusReport {
        timestamp: APRSTimestamp::HMS(hms(1, 58, 30)),
        text: String::new(),
    });
    assert_eq!(
        report.datetime_with_now(rfc3339("2022-10-16T02:00:00Z")),
        Some(Ok(rfc3339("2022-10-16T01:58:30Z")))
    );
}
