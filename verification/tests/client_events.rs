use flightlogr::aprs::client::{
    login_line, login_step, report_source, Credentials, LineAction, LoginStep, ReportSource, Reports,
};
use flightlogr::aprs::parsing::APRSParser;
use flightlogr::aprs::report::{PositionReport, PositionReportDataExtension, Report, StatusReport};
use flightlogr::aprs::time::{APRSTimestamp, TimeOfDay, DHM};
use flightlogr::events::{
    beacon_of_report, report_instant, state_of_compressed_speed, state_of_speed, AircraftState, Beacon,
    Event, EventDetector,
};

fn creds() -> Credentials {
    Credentials {
        user: "user".to_string(),
        password: "pass".to_string(),
        app_name: "tests".to_string(),
        app_version: "0.1.0".to_string(),
    }
}

#[test]
fn login_line_without_filters() {
    assert_eq!(login_line(&creds(), &vec![]), "user user pass pass vers tests 0.1.0\n");
}

#[test]
fn login_line_with_filters() {
    assert_eq!(
        login_line(&creds(), &vec!["m/42".to_string(), "-r/40/18/10".to_string()]),
        "user user pass pass vers tests 0.1.0 filter m/42 -r/40/18/10\n"
    );
}

#[test]
fn login_responses() {
    assert_eq!(login_step("# aprsc 2.1.10\n", false), LoginStep::Continue);
    assert_eq!(login_step("# APRS\n", false), LoginStep::LoggedIn);
    assert_eq!(login_step("# logresp user verified\n", false), LoginStep::LoggedIn);
    assert_eq!(login_step("# logresp user unverified, server X\n", false), LoginStep::InvalidCredentials);
    assert_eq!(login_step("# Invalid username format\n", false), LoginStep::LoggedIn);
    assert_eq!(login_step("# Invalid username format\n", true), LoginStep::InvalidUsername);
    assert_eq!(login_step("A>B:/foo\n", true), LoginStep::Continue);
}

#[test]
fn report_lines() {
    assert_eq!(Reports::<()>::line_action(0, ""), LineAction::EndOfStream);
    assert_eq!(Reports::<()>::line_action(10, "# comment\n"), LineAction::Skip);
    assert_eq!(Reports::<()>::line_action(10, "A>B:/x\n"), LineAction::Parse);
}

const NANOS: i128 = 1_000_000_000;

fn beacon(seconds: i128, state: Option<AircraftState>) -> Option<Beacon> {
    Some(Beacon { timestamp: seconds * NANOS, state })
}

fn state_of(e: Option<Event>) -> Option<(String, AircraftState, i128)> {
    e.map(|Event::AircraftChangedState(e)| (e.aircraft_id, e.new_state, e.date))
}

#[test]
fn take_off_and_landing() {
    let mut d = EventDetector::new();
    let id = || Some("DDA5BA".to_string());
    assert!(d.add_position_report(id(), beacon(0, Some(AircraftState::OnGround))).is_none());
    assert!(d.add_position_report(id(), beacon(20, Some(AircraftState::OnGround))).is_none());
    // Between the ground and airborne speeds: no state.
    assert!(d.add_position_report(id(), beacon(30, None)).is_none());
    assert!(d.add_position_report(id(), beacon(40, Some(AircraftState::Airborne))).is_none());
    // The airborne run has lasted 10 seconds; the run before had no state, so the event is
    // dated at its start.
    assert_eq!(
        state_of(d.add_position_report(id(), beacon(50, Some(AircraftState::Airborne)))),
        Some(("DDA5BA".to_string(), AircraftState::Airborne, 30 * NANOS))
    );
    // No second event for the same state.
    assert!(d.add_position_report(id(), beacon(60, Some(AircraftState::Airborne))).is_none());
    // Stale reports are not kept.
    assert!(d.add_position_report(id(), beacon(55, Some(AircraftState::OnGround))).is_none());
    assert!(d.add_position_report(id(), beacon(100, Some(AircraftState::OnGround))).is_none());
    assert_eq!(
        state_of(d.add_position_report(id(), beacon(110, Some(AircraftState::OnGround)))),
        Some(("DDA5BA".to_string(), AircraftState::OnGround, 100 * NANOS))
    );
}

#[test]
fn reports_without_id_or_speed_give_no_event() {
    let mut d = EventDetector::new();
    assert!(d.add_position_report(None, beacon(0, Some(AircraftState::OnGround))).is_none());
    assert!(d.add_position_report(Some("X".to_string()), None).is_none());
    for i in 0..250 {
        assert!(d.add_position_report(Some("X".to_string()), beacon(i, Some(AircraftState::OnGround))).is_none());
        d.maintain();
    }
}

fn line(speed: u32) -> Report {
    APRSParser
        .parse(&format!("FLRDDA5BA>APRS,qAS,LFMX:!4415.61N/00600.03E'342/{speed:03} id0ADDA5BA"))
        .unwrap()
}

#[test]
fn reports_within_one_second_are_kept() {
    let mut d = EventDetector::new();
    let now = 1_641_124_800 * NANOS;
    let at = |ms: i128| now + ms * 1_000_000;
    assert!(d.add_report(&line(0), now, at(0)).is_none());
    // Half a second later, in the same second: kept, and the airborne run starts there.
    assert!(d.add_report(&line(49), now, at(500)).is_none());
    assert!(d.add_report(&line(49), now, at(5_000)).is_none());
    match d.add_report(&line(49), now, at(10_500)) {
        Some(Event::AircraftChangedState(e)) => {
            assert_eq!(e.aircraft_id, "0ADDA5BA");
            assert_eq!(e.new_state, AircraftState::Airborne);
            assert_eq!(e.date, at(500));
        }
        None => panic!("expected a take-off"),
    }
}

#[test]
fn status_reports_change_nothing() {
    let mut d = EventDetector::new();
    let now = 1_641_124_800 * NANOS;
    let status = Report::StatusReport(StatusReport {
        timestamp: APRSTimestamp::HMS(TimeOfDay::from_hms_opt(11, 0, 0).unwrap()),
        text: "v0.2".to_string(),
    });
    assert!(d.add_report(&line(0), now, now).is_none());
    assert!(d.add_report(&status, now, now + 5 * NANOS).is_none());
    assert!(d.add_report(&line(49), now, now + 10 * NANOS).is_none());
    assert!(d.add_report(&status, now, now + 15 * NANOS).is_none());
    assert_eq!(
        state_of(d.add_report(&line(49), now, now + 20 * NANOS)),
        Some(("0ADDA5BA".to_string(), AircraftState::Airborne, now + 10 * NANOS))
    );
}

#[test]
fn speed_thresholds() {
    assert_eq!(state_of_speed(0), Some(AircraftState::OnGround));
    assert_eq!(state_of_speed(10), Some(AircraftState::OnGround));
    assert_eq!(state_of_speed(11), None);
    assert_eq!(state_of_speed(29), None);
    assert_eq!(state_of_speed(30), Some(AircraftState::Airborne));
    assert_eq!(state_of_speed(250), Some(AircraftState::Airborne));
}

#[test]
fn report_instant_guesses_or_falls_back() {
    // 2022-01-02T12:00:00.25Z
    let now = 1_641_124_800 * NANOS + 250_000_000;
    let clock = 1_700_000_000 * NANOS + 1;
    let hms = APRSTimestamp::HMS(TimeOfDay::from_hms_opt(11, 0, 0).unwrap());
    assert_eq!(report_instant(Some(hms), now, clock), 1_641_124_800 * NANOS - 3600 * NANOS);
    let local = APRSTimestamp::DHM(DHM::new(2, 11, 0, false));
    assert_eq!(report_instant(Some(local), now, clock), clock);
    assert_eq!(report_instant(None, now, clock), clock);
}

fn position(line: &str) -> PositionReport {
    match APRSParser.parse(line).unwrap() {
        Report::PositionReport(r) => r,
        Report::StatusReport(_) => panic!("expected a position report"),
    }
}

#[test]
fn beacon_of_a_report() {
    let now = 1_641_124_800 * NANOS;
    let clock = 1_700_000_000 * NANOS;
    let flying = position("FLRDDA5BA>APRS,qAS,LFMX:/110000h4415.61N/00600.03E'342/049/A=005524 id0ADDA5BA");
    assert_eq!(
        beacon_of_report(&flying, now, clock),
        Some(Beacon { timestamp: now - 3600 * NANOS, state: Some(AircraftState::Airborne) })
    );
    let taxiing = position("FLRDDA5BA>APRS,qAS,LFMX:!4415.61N/00600.03E'342/020 id0ADDA5BA");
    assert_eq!(beacon_of_report(&taxiing, now, clock), Some(Beacon { timestamp: clock, state: None }));
    let no_speed = position("FLRDDA5BA>APRS,qAS,LFMX:/110000h4415.61N/00600.03E' id0ADDA5BA");
    assert_eq!(beacon_of_report(&no_speed, now, clock), None);
}

#[test]
fn compressed_speed_thresholds() {
    assert_eq!(state_of_compressed_speed(0), Some(AircraftState::OnGround));
    assert_eq!(state_of_compressed_speed(31), Some(AircraftState::OnGround));
    assert_eq!(state_of_compressed_speed(32), None);
    assert_eq!(state_of_compressed_speed(44), None);
    assert_eq!(state_of_compressed_speed(45), Some(AircraftState::Airborne));
    // The thresholds agree with the speed 1.08^n - 1 against 10 and 30 knots.
    for n in 0u8..=93 {
        let speed = 1.08f32.powi(n as i32) - 1.;
        let expected = if speed >= 30. {
            Some(AircraftState::Airborne)
        } else if speed <= 10. {
            Some(AircraftState::OnGround)
        } else {
            None
        };
        assert_eq!(state_of_compressed_speed(n), expected, "speed byte {n}");
    }
}

#[test]
fn beacon_of_compressed_data() {
    let now = 1_641_124_800 * NANOS;
    let mut report = position("FLRDDA5BA>APRS,qAS,LFMX:!4415.61N/00600.03E' id0ADDA5BA");
    report.data_extension = Some(PositionReportDataExtension::CompressedData { cs: [b'7', b'P'], indicator: b'[' });
    // 'P' is byte 47 from '!': about 36 knots.
    assert_eq!(beacon_of_report(&report, now, now), Some(Beacon { timestamp: now, state: Some(AircraftState::Airborne) }));
    report.data_extension = Some(PositionReportDataExtension::CompressedData { cs: [b' ', b'P'], indicator: b'[' });
    assert_eq!(beacon_of_report(&report, now, now), None);
}

#[test]
fn report_sources() {
    assert_eq!(report_source("-"), ReportSource::Stdin);
    assert_eq!(report_source("file:///tmp/aprs.sock"), ReportSource::File("/tmp/aprs.sock".to_string()));
    assert_eq!(report_source("./sample.txt"), ReportSource::File("sample.txt".to_string()));
    assert_eq!(report_source("aprs.glidernet.org:14580"), ReportSource::Server("aprs.glidernet.org:14580".to_string()));
    assert_eq!(report_source("--"), ReportSource::Server("--".to_string()));
}

#[test]
fn stream_reads_its_remaining_non_comment_lines() {
    let lines = ["# aprsc 2.1\n", "A>B:/one\n", "# comment\n", "C>D:/two\n"];
    let mut parsed = Vec::new();
    for line in lines.iter().map(|l| (l.len(), *l)).chain(std::iter::once((0, ""))) {
        match Reports::<()>::line_action(line.0, line.1) {
            LineAction::EndOfStream => break,
            LineAction::Skip => {}
            LineAction::Parse => parsed.push(line.1),
        }
    }
    assert_eq!(parsed, vec!["A>B:/one\n", "C>D:/two\n"]);
}

#[test]
fn day_of_month_up_to_today_is_this_month() {
    // 2022-03-10T12:00:00Z
    let now = 1_646_913_600 * NANOS;
    for day in 1..=10u32 {
        let t = APRSTimestamp::DHM(DHM::new(day, 5, 0, true));
        let expected = (1_646_870_400 - (10 - day as i128) * 86_400 + 5 * 3600) * NANOS;
        assert_eq!(t.guess_datetime(now), Ok(expected));
    }
}
