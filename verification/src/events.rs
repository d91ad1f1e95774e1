//! Take-off and landing detection: each aircraft's recent position reports, grouped in runs
//! of one state (airborne, on ground, or neither), give an event when the latest run has
//! lasted long enough and its state differs from the last one reported.
use crate::aprs::report::{first_id_text, PositionReport, PositionReportDataExtension, Report};
use crate::aprs::time::{
    guess_date_is_latest_before_leeway, spec_last_month, valid_instant, APRSTimestamp,
};
use crate::calendar::{ce_day_of, ce_days_of_ymd, ymd_of_ce_days, NANOS_PER_SECOND};
use std::collections::VecDeque;
use vstd::prelude::*;

verus! {

/// Where the current instant comes from (nanoseconds from the Unix epoch).
pub trait DateSource {
    fn now(&self) -> i128;
}

/// The system clock.
pub struct SystemDateTimeSource;

/// The instant that chrono's `Utc::now` gives: `DateTime::timestamp` (seconds) and
/// `DateTime::timestamp_subsec_nanos`. It depends on the clock, so the contract states only
/// the ranges chrono has: its dates lie within years -262143 to 262143, and the nanoseconds
/// stay below 2 000 000 000 (a leap second reaches past one second).
#[verifier::external_body]
fn utc_now() -> (r: (i64, u32))
    ensures
        -0x7ff_0000_0000 < r.0 < 0x7ff_0000_0000,
        r.1 < 2_000_000_000,
{
    let t = chrono::Utc::now();
    (t.timestamp(), t.timestamp_subsec_nanos())
}

/// The instant `secs` seconds and `nanos` nanoseconds after the Unix epoch.
pub fn instant_of(secs: i64, nanos: u32) -> (r: i128)
    ensures
        r == secs * 1_000_000_000 + nanos,
{
    (secs as i128) * NANOS_PER_SECOND + (nanos as i128)
}

impl DateSource for SystemDateTimeSource {
    fn now(&self) -> (r: i128)
        ensures
            valid_instant(r as int),
    {
        let (secs, nanos) = utc_now();
        instant_of(secs, nanos)
    }
}

/// A fixed instant.
pub struct FixedDateTimeSource(pub i128);

impl DateSource for FixedDateTimeSource {
    fn now(&self) -> (r: i128)
        ensures
            r == self.0,
    {
        self.0
    }
}

/// A state must last this long to be reported: 10 seconds, in nanoseconds.
pub const EVENT_MIN_DURATION: i128 = 10_000_000_000;

/// Maintenance runs once every this many position reports.
pub const MAINTAIN_PERIOD: u32 = 100;

/// Maintenance keeps this many reports of each aircraft.
pub const REPORTS_KEPT: usize = 10;

/// Bound on the instants of beacons: every instant that a timestamp can be guessed to stand
/// for lies inside it.
pub const MAX_ABS_BEACON_TIME: i128 = 0x1_0000_0000_0000_0000_0000;

/// Speed, in knots, at or above which an aircraft is airborne.
pub const AIRBORNE_SPEED: u32 = 30;

/// Speed, in knots, at or below which an aircraft is on the ground.
pub const GROUNDED_SPEED: u32 = 10;

#[derive(Clone, Copy, Debug, Eq, PartialEq, Structural)]
pub enum AircraftState {
    Airborne,
    OnGround,
}

/// One position report of an aircraft: its instant and the state that its speed shows
/// (none between the ground and the airborne speeds).
#[derive(Clone, Copy, Debug, Eq, PartialEq, Structural)]
pub struct Beacon {
    pub timestamp: i128,
    pub state: Option<AircraftState>,
}

pub open spec fn beacon_ok(b: Beacon) -> bool {
    -MAX_ABS_BEACON_TIME <= b.timestamp <= MAX_ABS_BEACON_TIME
}

/// The state that a speed in knots shows: airborne from the airborne speed up, on the ground
/// up to the grounded speed, none in between.
pub open spec fn spec_state_of_speed(speed: u32) -> Option<AircraftState> {
    if speed >= 30 {
        Some(AircraftState::Airborne)
    } else if speed <= 10 {
        Some(AircraftState::OnGround)
    } else {
        None
    }
}

pub fn state_of_speed(speed: u32) -> (r: Option<AircraftState>)
    ensures
        r == spec_state_of_speed(speed),
{
    if speed >= AIRBORNE_SPEED {
        Some(AircraftState::Airborne)
    } else if speed <= GROUNDED_SPEED {
        Some(AircraftState::OnGround)
    } else {
        None
    }
}

/// The instant of a report: its timestamp's guessed instant (from the current instant `now`),
/// or `clock` where it has no timestamp or no date can be guessed for it.
pub open spec fn spec_report_instant(timestamp: Option<APRSTimestamp>, now: int, clock: int) -> int {
    match timestamp {
        Some(t) => match t.spec_guess_datetime(now) {
            Ok(v) => v,
            Err(_) => clock,
        },
        None => clock,
    }
}

proof fn lemma_day_instant_bound(day: i32, secs: int)
    requires
        0 <= secs < 86400,
    ensures
        -MAX_ABS_BEACON_TIME <= (day - 719163) * 86_400_000_000_000 + secs * 1_000_000_000 <= MAX_ABS_BEACON_TIME,
{
    let d = day - 719163;
    assert(-0x1_0000_0000 <= d <= 0x1_0000_0000);
    assert(-0x1_0000_0000 * 86_400_000_000_000 <= d * 86_400_000_000_000 <= 0x1_0000_0000
        * 86_400_000_000_000) by (nonlinear_arith)
        requires
            -0x1_0000_0000 <= d <= 0x1_0000_0000,
    ;
}

/// Every instant that a timestamp is guessed to stand for lies within the beacons' bound.
proof fn lemma_guessed_instant_bound(t: APRSTimestamp, now: int)
    requires
        t.wf(),
        valid_instant(now),
    ensures
        t.spec_guess_datetime(now) matches Ok(v) ==> -MAX_ABS_BEACON_TIME <= v <= MAX_ABS_BEACON_TIME,
{
    match t {
        APRSTimestamp::HMS(tm) => {
            guess_date_is_latest_before_leeway(tm.secs(), now);
        },
        APRSTimestamp::DHM(d) => {
            let secs = d.time.secs();
            match ymd_of_ce_days(ce_day_of(now) as i32) {
                None => {},
                Some((y, m, today)) => {
                    if let Some(dd) = ce_days_of_ymd(y, m, d.day) {
                        lemma_day_instant_bound(dd, secs);
                    }
                    if let Some((py, pm)) = spec_last_month(y, m, today) {
                        if let Some(pd) = ce_days_of_ymd(py, pm, d.day) {
                            lemma_day_instant_bound(pd, secs);
                        }
                    }
                },
            }
        },
    }
}

/// The instant of a report (see `spec_report_instant`); `clock` is the system clock, read by
/// the caller.
pub fn report_instant(timestamp: Option<APRSTimestamp>, now: i128, clock: i128) -> (r: i128)
    requires
        timestamp matches Some(t) ==> t.wf(),
        valid_instant(now as int),
        valid_instant(clock as int),
    ensures
        r == spec_report_instant(timestamp, now as int, clock as int),
        -MAX_ABS_BEACON_TIME <= r <= MAX_ABS_BEACON_TIME,
{
    match timestamp {
        Some(t) => match t.guess_datetime(now) {
            Ok(v) => {
                proof {
                    lemma_guessed_instant_bound(t, now as int);
                }
                v
            },
            Err(_) => clock,
        },
        None => clock,
    }
}

/// The state that the speed byte `n` of compressed data shows. That speed is 1.08^n - 1
/// knots: it reaches the airborne speed from n = 45 on (1.08^45 - 1 is about 30.9, 1.08^44 - 1
/// about 28.6) and stays at most the grounded speed up to n = 31 (1.08^31 - 1 is about 9.9,
/// 1.08^32 - 1 about 10.7).
pub open spec fn spec_state_of_compressed_speed(n: u8) -> Option<AircraftState> {
    if n >= 45 {
        Some(AircraftState::Airborne)
    } else if n <= 31 {
        Some(AircraftState::OnGround)
    } else {
        None
    }
}

pub fn state_of_compressed_speed(n: u8) -> (r: Option<AircraftState>)
    ensures
        r == spec_state_of_compressed_speed(n),
{
    if n >= 45 {
        Some(AircraftState::Airborne)
    } else if n <= 31 {
        Some(AircraftState::OnGround)
    } else {
        None
    }
}

/// The speed byte of compressed data is counted from `!`: a smaller byte, where the course
/// byte gives a speed, cannot be read.
pub open spec fn speed_fits(report: PositionReport) -> bool {
    match report.data_extension {
        Some(PositionReportDataExtension::CompressedData { cs, .. }) => !(33 <= cs[0] <= 122) || cs[1]
            >= 33,
        _ => true,
    }
}

/// The beacon of a report: its instant and the state that the speed of its data extension
/// shows; none where the report gives no speed.
pub open spec fn spec_beacon_of_report(report: PositionReport, now: int, clock: int) -> Option<Beacon> {
    let timestamp = spec_report_instant(report.timestamp, now, clock) as i128;
    match report.data_extension {
        Some(PositionReportDataExtension::CourseSpeed { speed, .. }) => Some(
            Beacon { timestamp, state: spec_state_of_speed(speed) },
        ),
        Some(PositionReportDataExtension::CompressedData { cs, .. }) => if 33 <= cs[0] <= 122 {
            Some(Beacon { timestamp, state: spec_state_of_compressed_speed((cs[1] - 33) as u8) })
        } else {
            None
        },
        _ => None,
    }
}

/// The beacon of a position report (see `spec_beacon_of_report`), at the current instant
/// `now` and with the system clock `clock`.
pub fn beacon_of_report(report: &PositionReport, now: i128, clock: i128) -> (r: Option<Beacon>)
    requires
        speed_fits(*report),
        report.timestamp matches Some(t) ==> t.wf(),
        valid_instant(now as int),
        valid_instant(clock as int),
    ensures
        r == spec_beacon_of_report(*report, now as int, clock as int),
        r matches Some(b) ==> beacon_ok(b),
{
    let timestamp = report_instant(report.timestamp, now, clock);
    match &report.data_extension {
        Some(PositionReportDataExtension::CourseSpeed { speed, .. }) => {
            Some(Beacon { timestamp, state: state_of_speed(*speed) })
        },
        Some(PositionReportDataExtension::CompressedData { cs, .. }) => {
            if 33 <= cs[0] && cs[0] <= 122 {
                Some(Beacon { timestamp, state: state_of_compressed_speed(cs[1] - 33) })
            } else {
                None
            }
        },
        _ => None,
    }
}

/// Reports whose instants strictly increase.
pub open spec fn reports_ok(s: Seq<Beacon>) -> bool {
    &&& forall|i: int| 0 <= i < s.len() ==> beacon_ok(#[trigger] s[i])
    &&& forall|i: int, j: int| 0 <= i < j < s.len() ==> #[trigger] s[i].timestamp < #[trigger] s[j].timestamp
}

/// The first index of the run of equal states that holds index `k`.
pub open spec fn run_start(s: Seq<Beacon>, k: int) -> int
    decreases k,
{
    if k <= 0 || s[k - 1].state != s[k].state {
        k
    } else {
        run_start(s, k - 1)
    }
}

/// The event that the reports show, as (date, new state): the last run has a state, follows
/// another run, and lasts at least the minimum duration; its date is the start of the
/// previous run where that run had no state, else the start of the last run.
pub open spec fn detect_spec(s: Seq<Beacon>) -> Option<(i128, AircraftState)> {
    if s.len() == 0 {
        None
    } else {
        let e = s.len() - 1;
        let a = run_start(s, e);
        if a <= 0 {
            None
        } else {
            match s[e].state {
                None => None,
                Some(st) => if s[e].timestamp - s[a].timestamp < 10_000_000_000 {
                    None
                } else {
                    let p = run_start(s, a - 1);
                    Some(
                        (
                            if s[a - 1].state is None {
                                s[p].timestamp
                            } else {
                                s[a].timestamp
                            },
                            st,
                        ),
                    )
                },
            }
        }
    }
}

pub proof fn lemma_run_start(s: Seq<Beacon>, k: int)
    requires
        0 <= k < s.len(),
    ensures
        0 <= run_start(s, k) <= k,
        forall|q: int| run_start(s, k) <= q <= k ==> s[q].state == s[k].state,
        run_start(s, k) > 0 ==> s[run_start(s, k) - 1].state != s[k].state,
    decreases k,
{
    if k > 0 && s[k - 1].state == s[k].state {
        lemma_run_start(s, k - 1);
    }
}

/// An event lies in the reports: its state is that of the latest report, which comes at
/// least the minimum duration after the event's date, and the date is a report's instant.
pub proof fn detected_event_is_latest_state(s: Seq<Beacon>)
    requires
        s.len() > 0,
        detect_spec(s) is Some,
    ensures
        ({
            let (date, st) = detect_spec(s)->0;
            &&& s.last().state == Some(st)
            &&& date + 10_000_000_000 <= s.last().timestamp || !reports_ok(s)
            &&& exists|i: int| 0 <= i < s.len() && s[i].timestamp == date
        }),
{
    let e = s.len() - 1;
    let a = run_start(s, e);
    lemma_run_start(s, e);
    lemma_run_start(s, a - 1);
    let p = run_start(s, a - 1);
    if reports_ok(s) {
        if p < a {
            assert(s[p].timestamp < s[a].timestamp);
        }
    }
    let (date, st) = detect_spec(s)->0;
    if s[a - 1].state is None {
        assert(s[p].timestamp == date);
    } else {
        assert(s[a].timestamp == date);
    }
}

/// What is known of an aircraft: the state last reported, and its recent position reports.
pub struct AircraftStatus {
    pub state: Option<AircraftState>,
    pub reports: VecDeque<Beacon>,
}

struct AircraftEntry {
    id: String,
    status: AircraftStatus,
}

pub type StatusView = (Option<AircraftState>, Seq<Beacon>);

spec fn entry_view(e: AircraftEntry) -> StatusView {
    (e.status.state, e.status.reports@)
}

spec fn has_id(es: Seq<AircraftEntry>, k: Seq<char>) -> bool {
    exists|i: int| 0 <= i < es.len() && #[trigger] es[i].id@ == k
}

spec fn index_of(es: Seq<AircraftEntry>, k: Seq<char>) -> int {
    choose|i: int| 0 <= i < es.len() && #[trigger] es[i].id@ == k
}

spec fn statuses_of(es: Seq<AircraftEntry>) -> Map<Seq<char>, StatusView> {
    Map::new(|k: Seq<char>| has_id(es, k), |k: Seq<char>| entry_view(es[index_of(es, k)]))
}

spec fn distinct_ids(es: Seq<AircraftEntry>) -> bool {
    forall|i: int, j: int| 0 <= i < es.len() && 0 <= j < es.len() && i != j ==> #[trigger] es[i].id@ != #[trigger] es[j].id@
}

/// The status of an aircraft, which starts with no state and no reports.
pub open spec fn lookup(m: Map<Seq<char>, StatusView>, id: Seq<char>) -> StatusView {
    if m.contains_key(id) {
        m[id]
    } else {
        (None, Seq::empty())
    }
}

/// A status after a new report: the report is kept where it is later than the last one; an
/// event follows where the reports show one whose state differs from the state last
/// reported, and the status then takes that state.
pub open spec fn update_spec(s: StatusView, b: Beacon) -> (StatusView, Option<(i128, AircraftState)>) {
    let reports = if s.1.len() == 0 || s.1.last().timestamp < b.timestamp {
        s.1.push(b)
    } else {
        s.1
    };
    match detect_spec(reports) {
        Some((date, st)) => if s.0 != Some(st) {
            ((Some(st), reports), Some((date, st)))
        } else {
            ((s.0, reports), None)
        },
        None => ((s.0, reports), None),
    }
}

/// The latest reports.
pub open spec fn keep_latest(s: StatusView) -> StatusView {
    if s.1.len() > 10 {
        (s.0, s.1.subrange(s.1.len() - 10, s.1.len() as int))
    } else {
        s
    }
}

/// The statuses after a position report from aircraft `id` with beacon `beacon`, and the
/// event it gives as (aircraft, date, new state).
pub open spec fn add_spec(
    m: Map<Seq<char>, StatusView>,
    id: Option<Seq<char>>,
    beacon: Option<Beacon>,
) -> (Map<Seq<char>, StatusView>, Option<(Seq<char>, i128, AircraftState)>) {
    match id {
        None => (m, None),
        Some(i) => match beacon {
            None => (m.insert(i, lookup(m, i)), None),
            Some(b) => {
                let (s, ev) = update_spec(lookup(m, i), b);
                (
                    m.insert(i, s),
                    match ev {
                        Some((date, st)) => Some((i, date, st)),
                        None => None,
                    },
                )
            },
        },
    }
}

/// The statuses and the count after one more position report: every hundredth report
/// keeps only the latest reports of each aircraft and restarts the count.
pub open spec fn maintain_spec(m: Map<Seq<char>, StatusView>, counter: u32) -> (Map<Seq<char>, StatusView>, u32) {
    if counter + 1 == 100 {
        (m.map_values(|s: StatusView| keep_latest(s)), 0u32)
    } else {
        (m, (counter + 1) as u32)
    }
}

pub open spec fn event_matches(r: Option<Event>, ev: Option<(Seq<char>, i128, AircraftState)>) -> bool {
    match (r, ev) {
        (None, None) => true,
        (Some(Event::AircraftChangedState(e)), Some((i, date, st))) => e.aircraft_id@ == i
            && e.new_state == st && e.date == date,
        _ => false,
    }
}

/// An event reports a change: the aircraft's status takes the new state, which differs from
/// the state reported before and is the state of its latest report.
pub proof fn event_reports_a_change(m: Map<Seq<char>, StatusView>, i: Seq<char>, b: Beacon)
    requires
        add_spec(m, Some(i), Some(b)).1 is Some,
    ensures
        ({
            let (m2, ev) = add_spec(m, Some(i), Some(b));
            let (_, _, st) = ev->0;
            &&& m2[i].0 == Some(st)
            &&& lookup(m, i).0 != Some(st)
            &&& m2[i].1.last().state == Some(st)
        }),
{
    let (s, ev) = update_spec(lookup(m, i), b);
    let reports = s.1;
    detected_event_is_latest_state(reports);
}

/// A report no later than the latest kept one of its aircraft is not kept, and gives no
/// event.
pub proof fn stale_report_changes_nothing(m: Map<Seq<char>, StatusView>, i: Seq<char>, b: Beacon)
    requires
        m.contains_key(i),
        m[i].1.len() > 0,
        b.timestamp <= m[i].1.last().timestamp,
        detect_spec(m[i].1) matches Some((_, st)) ==> m[i].0 == Some(st),
    ensures
        add_spec(m, Some(i), Some(b)).0 == m,
        add_spec(m, Some(i), Some(b)).1 is None,
{
    assert(m.insert(i, m[i]) =~= m);
}

/// Maintenance keeps the latest ten reports of each aircraft (all of them where it has fewer),
/// in order, and their states.
pub proof fn maintenance_keeps_latest_reports(m: Map<Seq<char>, StatusView>, counter: u32)
    requires
        counter + 1 == 100,
    ensures
        ({
            let (m2, c2) = maintain_spec(m, counter);
            &&& c2 == 0
            &&& m2.dom() == m.dom()
            &&& forall|k: Seq<char>| #[trigger] m2.contains_key(k) ==> m2[k].1.len() == (if m[k].1.len()
                > 10 {
                10
            } else {
                m[k].1.len()
            }) && m2[k].0 == m[k].0 && m2[k].1 == m[k].1.subrange(
                m[k].1.len() - m2[k].1.len(),
                m[k].1.len() as int,
            )
        }),
{
    let (m2, c2) = maintain_spec(m, counter);
    assert(m2.dom() =~= m.dom());
    assert forall|k: Seq<char>| #[trigger] m2.contains_key(k) implies m2[k].1.len() == (if m[k].1.len()
        > 10 {
        10
    } else {
        m[k].1.len()
    }) && m2[k].0 == m[k].0 && m2[k].1 == m[k].1.subrange(
        m[k].1.len() - m2[k].1.len(),
        m[k].1.len() as int,
    ) by {
        if m[k].1.len() <= 10 {
            assert(m[k].1.subrange(0, m[k].1.len() as int) =~= m[k].1);
        }
    }
}

#[derive(Clone, Debug)]
pub struct AircraftChangeStatedEvent {
    pub aircraft_id: String,
    pub new_state: AircraftState,
    /// The instant, in nanoseconds from the Unix epoch.
    pub date: i128,
}

#[derive(Clone, Debug)]
pub enum Event {
    AircraftChangedState(AircraftChangeStatedEvent),
}

/// Detects take-offs and landings from the position reports of many aircraft.
pub struct EventDetector {
    entries: Vec<AircraftEntry>,
    maintain_counter: u32,
}

proof fn lemma_statuses_update(es: Seq<AircraftEntry>, j: int, e: AircraftEntry)
    requires
        distinct_ids(es),
        0 <= j < es.len(),
        e.id@ == es[j].id@,
    ensures
        distinct_ids(es.update(j, e)),
        statuses_of(es.update(j, e)) =~= statuses_of(es).insert(e.id@, entry_view(e)),
{
    let es2 = es.update(j, e);
    assert(distinct_ids(es2)) by {
        assert forall|a: int, b: int| 0 <= a < es2.len() && 0 <= b < es2.len() && a != b implies #[trigger] es2[a].id@ != #[trigger] es2[b].id@ by {
            assert(es2[a].id@ == es[a].id@);
            assert(es2[b].id@ == es[b].id@);
        }
    }
    assert forall|k: Seq<char>| #[trigger] has_id(es2, k) <==> has_id(es, k) || k == e.id@ by {
        if has_id(es, k) {
            let i = choose|i: int| 0 <= i < es.len() && #[trigger] es[i].id@ == k;
            assert(es2[i].id@ == k);
        }
        if k == e.id@ {
            assert(es2[j].id@ == k);
        }
        if has_id(es2, k) {
            let i = choose|i: int| 0 <= i < es2.len() && #[trigger] es2[i].id@ == k;
            assert(es[i].id@ == k);
        }
    }
    assert forall|k: Seq<char>| has_id(es2, k) implies #[trigger] statuses_of(es2)[k] == statuses_of(es).insert(e.id@, entry_view(e))[k] by {
        let i = index_of(es2, k);
        assert(es2[i].id@ == k);
        if k == e.id@ {
            assert(i == j);
        } else {
            assert(i != j);
            let i0 = index_of(es, k);
            assert(es2[i].id@ == es[i].id@);
            assert(es[i0].id@ == k);
            assert(i0 == i);
        }
    }
}

proof fn lemma_statuses_push(es: Seq<AircraftEntry>, e: AircraftEntry)
    requires
        distinct_ids(es),
        !has_id(es, e.id@),
    ensures
        distinct_ids(es.push(e)),
        statuses_of(es.push(e)) =~= statuses_of(es).insert(e.id@, entry_view(e)),
{
    let es2 = es.push(e);
    assert(distinct_ids(es2)) by {
        assert forall|a: int, b: int| 0 <= a < es2.len() && 0 <= b < es2.len() && a != b implies #[trigger] es2[a].id@ != #[trigger] es2[b].id@ by {
            if a < es.len() && b < es.len() {
                assert(es2[a] == es[a] && es2[b] == es[b]);
            } else if a < es.len() {
                assert(es2[a] == es[a]);
                assert(es[a].id@ == es[a].id@);
            } else {
                assert(es2[b] == es[b]);
                assert(es[b].id@ == es[b].id@);
            }
        }
    }
    assert forall|k: Seq<char>| #[trigger] has_id(es2, k) <==> has_id(es, k) || k == e.id@ by {
        if has_id(es, k) {
            let i = choose|i: int| 0 <= i < es.len() && #[trigger] es[i].id@ == k;
            assert(es2[i].id@ == k);
        }
        if k == e.id@ {
            assert(es2[es.len() as int].id@ == k);
        }
        if has_id(es2, k) {
            let i = choose|i: int| 0 <= i < es2.len() && #[trigger] es2[i].id@ == k;
            if i < es.len() {
                assert(es[i].id@ == k);
            }
        }
    }
    assert forall|k: Seq<char>| has_id(es2, k) implies #[trigger] statuses_of(es2)[k] == statuses_of(es).insert(e.id@, entry_view(e))[k] by {
        let i = index_of(es2, k);
        assert(es2[i].id@ == k);
        if k == e.id@ {
            if i < es.len() {
                assert(es[i].id@ == e.id@);
            }
            assert(i == es.len());
        } else {
            assert(i < es.len());
            let i0 = index_of(es, k);
            assert(es[i].id@ == k);
            assert(es[i0].id@ == k);
            assert(i0 == i);
        }
    }
}

proof fn lemma_statuses_map(es: Seq<AircraftEntry>, es2: Seq<AircraftEntry>)
    requires
        distinct_ids(es),
        es2.len() == es.len(),
        forall|i: int| 0 <= i < es.len() ==> #[trigger] es2[i].id@ == es[i].id@,
        forall|i: int| 0 <= i < es.len() ==> entry_view(#[trigger] es2[i]) == keep_latest(entry_view(es[i])),
    ensures
        distinct_ids(es2),
        statuses_of(es2) =~= statuses_of(es).map_values(|s: StatusView| keep_latest(s)),
{
    assert(distinct_ids(es2)) by {
        assert forall|a: int, b: int| 0 <= a < es2.len() && 0 <= b < es2.len() && a != b implies #[trigger] es2[a].id@ != #[trigger] es2[b].id@ by {
            assert(es2[a].id@ == es[a].id@);
            assert(es2[b].id@ == es[b].id@);
        }
    }
    assert forall|k: Seq<char>| #[trigger] has_id(es2, k) <==> has_id(es, k) by {
        if has_id(es, k) {
            let i = choose|i: int| 0 <= i < es.len() && #[trigger] es[i].id@ == k;
            assert(es2[i].id@ == k);
        }
        if has_id(es2, k) {
            let i = choose|i: int| 0 <= i < es2.len() && #[trigger] es2[i].id@ == k;
            assert(es[i].id@ == k);
        }
    }
    assert forall|k: Seq<char>| has_id(es2, k) implies #[trigger] statuses_of(es2)[k] == statuses_of(es).map_values(|s: StatusView| keep_latest(s))[k] by {
        let i = index_of(es2, k);
        let i0 = index_of(es, k);
        assert(es2[i].id@ == k);
        assert(es[i0].id@ == k);
        assert(es[i].id@ == k);
        assert(i0 == i);
    }
}

impl EventDetector {
    /// The status of each aircraft, by identifier.
    pub closed spec fn statuses(&self) -> Map<Seq<char>, StatusView> {
        statuses_of(self.entries@)
    }

    /// The number of position reports since the last maintenance.
    pub closed spec fn counter(&self) -> u32 {
        self.maintain_counter
    }

    /// Identifiers are distinct, each aircraft's reports increase in time, and maintenance
    /// is due within the period.
    pub closed spec fn wf(&self) -> bool {
        &&& distinct_ids(self.entries@)
        &&& forall|i: int| 0 <= i < self.entries@.len() ==> reports_ok(#[trigger] self.entries@[i].status.reports@)
        &&& self.maintain_counter < 100
    }

    pub fn new() -> (r: Self)
        ensures
            r.wf(),
            r.statuses() == Map::<Seq<char>, StatusView>::empty(),
            r.counter() == 0,
    {
        let r = EventDetector { entries: Vec::new(), maintain_counter: 0 };
        assert(r.statuses() =~= Map::<Seq<char>, StatusView>::empty());
        r
    }

    fn find_entry(&self, id: &String) -> (r: Option<usize>)
        requires
            distinct_ids(self.entries@),
        ensures
            match r {
                Some(i) => i < self.entries@.len() && self.entries@[i as int].id@ == id@,
                None => !has_id(self.entries@, id@),
            },
    {
        let mut i: usize = 0;
        while i < self.entries.len()
            invariant
                i <= self.entries@.len(),
                forall|q: int| 0 <= q < i ==> self.entries@[q].id@ != id@,
            decreases self.entries@.len() - i,
        {
            if self.entries[i].id == *id {
                return Some(i);
            }
            i = i + 1;
        }
        None
    }

    /// The first index of the run that holds `k`.
    fn run_start_exec(s: &VecDeque<Beacon>, k: usize) -> (r: usize)
        requires
            k < s@.len(),
        ensures
            r == run_start(s@, k as int),
    {
        let mut j = k;
        while j > 0 && same_state(s[j - 1].state, s[j].state)
            invariant
                j <= k < s@.len(),
                run_start(s@, k as int) == run_start(s@, j as int),
            decreases j,
        {
            j = j - 1;
        }
        j
    }

    fn detect_event(reports: &VecDeque<Beacon>) -> (r: Option<(i128, AircraftState)>)
        requires
            reports_ok(reports@),
        ensures
            r == detect_spec(reports@),
    {
        let n = reports.len();
        if n == 0 {
            return None;
        }
        let e = n - 1;
        let a = Self::run_start_exec(reports, e);
        proof {
            lemma_run_start(reports@, e as int);
        }
        if a == 0 {
            return None;
        }
        let st = match reports[e].state {
            None => return None,
            Some(s) => s,
        };
        if reports[e].timestamp - reports[a].timestamp < EVENT_MIN_DURATION {
            return None;
        }
        let p = Self::run_start_exec(reports, a - 1);
        proof {
            lemma_run_start(reports@, a - 1);
        }
        let first = if reports[a - 1].state.is_none() {
            reports[p].timestamp
        } else {
            reports[a].timestamp
        };
        Some((first, st))
    }

    /// Takes a position report: from the aircraft `id`, with the beacon it gives (none where
    /// the report has no speed). An aircraft's status is created at its first report.
    pub fn add_position_report(&mut self, id: Option<String>, beacon: Option<Beacon>) -> (r: Option<Event>)
        requires
            old(self).wf(),
            beacon matches Some(b) ==> beacon_ok(b),
        ensures
            final(self).wf(),
            final(self).counter() == old(self).counter(),
            final(self).statuses() == add_spec(old(self).statuses(), opt_view(id), beacon).0,
            event_matches(r, add_spec(old(self).statuses(), opt_view(id), beacon).1),
    {
        let id = match id {
            None => return None,
            Some(i) => i,
        };
        let idx = match self.find_entry(&id) {
            Some(k) => {
                proof {
                    let es = self.entries@;
                    assert(has_id(es, id@));
                    let i0 = index_of(es, id@);
                    assert(es[i0].id@ == id@);
                    assert(i0 == k);
                    assert(statuses_of(es).insert(id@, lookup(statuses_of(es), id@)) =~= statuses_of(es));
                }
                k
            },
            None => {
                let entry = AircraftEntry { id: id.clone(), status: AircraftStatus { state: None, reports: VecDeque::new() } };
                proof {
                    lemma_statuses_push(self.entries@, entry);
                }
                self.entries.push(entry);
                proof {
                    assert(entry_view(entry) =~= lookup(old(self).statuses(), id@));
                    assert forall|i: int| 0 <= i < self.entries@.len() implies reports_ok(#[trigger] self.entries@[i].status.reports@) by {
                        if i < old(self).entries@.len() {
                            assert(self.entries@[i] == old(self).entries@[i]);
                        }
                    }
                }
                self.entries.len() - 1
            },
        };
        let ghost mid = self.entries@;
        assert(statuses_of(mid)[id@] == lookup(old(self).statuses(), id@)) by {
            let i0 = index_of(mid, id@);
            assert(mid[idx as int].id@ == id@);
            assert(mid[i0].id@ == id@);
        }
        let b = match beacon {
            None => {
                return None;
            },
            Some(b) => b,
        };
        let mut entry = self.entries.remove(idx);
        let ghost before = entry_view(entry);
        let n = entry.status.reports.len();
        if n == 0 || entry.status.reports[n - 1].timestamp < b.timestamp {
            entry.status.reports.push_back(b);
        }
        proof {
            let rs = entry.status.reports@;
            assert(reports_ok(rs)) by {
                assert forall|i: int, j: int| 0 <= i < j < rs.len() implies #[trigger] rs[i].timestamp < #[trigger] rs[j].timestamp by {
                    if j == rs.len() - 1 && rs.len() == before.1.len() + 1 && i < before.1.len() && before.1.len() > 0 {
                        assert(before.1[i].timestamp <= before.1.last().timestamp);
                    }
                }
            }
        }
        let det = Self::detect_event(&entry.status.reports);
        let mut ev: Option<Event> = None;
        match det {
            Some((date, st)) => {
                if !same_state(entry.status.state, Some(st)) {
                    entry.status.state = Some(st);
                    ev = Some(Event::AircraftChangedState(AircraftChangeStatedEvent { aircraft_id: id.clone(), new_state: st, date }));
                }
            },
            None => {},
        }
        proof {
            assert(entry_view(entry) == update_spec(before, b).0);
            assert(mid.remove(idx as int).insert(idx as int, entry) =~= mid.update(idx as int, entry));
            lemma_statuses_update(mid, idx as int, entry);
            assert(statuses_of(mid).insert(id@, entry_view(entry)) =~= old(self).statuses().insert(id@, entry_view(entry)));
        }
        self.entries.insert(idx, entry);
        proof {
            assert forall|i: int| 0 <= i < self.entries@.len() implies reports_ok(#[trigger] self.entries@[i].status.reports@) by {
                if i != idx {
                    assert(self.entries@[i] == mid[i]);
                }
            }
        }
        ev
    }

    /// Remove old reports
    pub fn maintain(&mut self)
        requires
            old(self).wf(),
        ensures
            final(self).wf(),
            (final(self).statuses(), final(self).counter()) == maintain_spec(
                old(self).statuses(),
                old(self).counter(),
            ),
    {
        self.maintain_counter = self.maintain_counter + 1;
        if self.maintain_counter == MAINTAIN_PERIOD {
            // Remove the last reports for all aircrafts execpt the last 10.
            let ghost start = self.entries@;
            let mut j: usize = 0;
            while j < self.entries.len()
                invariant
                    self.entries@.len() == start.len(),
                    distinct_ids(start),
                    j <= start.len(),
                    forall|i: int| 0 <= i < start.len() ==> #[trigger] self.entries@[i].id@ == start[i].id@,
                    forall|i: int| 0 <= i < j ==> entry_view(#[trigger] self.entries@[i]) == keep_latest(entry_view(start[i])),
                    forall|i: int| j <= i < start.len() ==> #[trigger] self.entries@[i] == start[i],
                    forall|i: int| 0 <= i < start.len() ==> reports_ok(#[trigger] start[i].status.reports@),
                    forall|i: int| 0 <= i < start.len() ==> reports_ok(#[trigger] self.entries@[i].status.reports@),
                decreases start.len() - j,
            {
                let ghost cur = self.entries@;
                let mut entry = self.entries.remove(j);
                let n = entry.status.reports.len();
                if n > REPORTS_KEPT {
                    let tail = entry.status.reports.split_off(n - REPORTS_KEPT);
                    entry.status.reports = tail;
                }
                proof {
                    assert(entry_view(entry) =~= keep_latest(entry_view(start[j as int])));
                    let rs = entry.status.reports@;
                    let rs0 = start[j as int].status.reports@;
                    assert(reports_ok(rs)) by {
                        if n > 10 {
                            assert forall|a: int, b: int| 0 <= a < b < rs.len() implies #[trigger] rs[a].timestamp < #[trigger] rs[b].timestamp by {
                                assert(rs[a] == rs0[a + n - 10]);
                                assert(rs[b] == rs0[b + n - 10]);
                            }
                            assert forall|a: int| 0 <= a < rs.len() implies beacon_ok(#[trigger] rs[a]) by {
                                assert(rs[a] == rs0[a + n - 10]);
                            }
                        }
                    }
                }
                self.entries.insert(j, entry);
                proof {
                    assert forall|i: int| 0 <= i < start.len() && i != j implies #[trigger] self.entries@[i] == cur[i] by {}
                }
                j = j + 1;
            }
            proof {
                lemma_statuses_map(start, self.entries@);
            }
            self.maintain_counter = 0;
        }
    }

    /// Takes a report at the current instant `now`, with the system clock `clock`: a status
    /// report changes nothing; a position report goes to `add_position_report`, with its
    /// sender's identifier and its beacon (`beacon_of_report`), then maintenance runs when due.
    pub fn add_report(&mut self, report: &Report, now: i128, clock: i128) -> (r: Option<Event>)
        requires
            old(self).wf(),
            valid_instant(now as int),
            valid_instant(clock as int),
            report matches Report::PositionReport(pr) ==> speed_fits(*pr) && (pr.timestamp matches Some(
                t,
            ) ==> t.wf()),
        ensures
            final(self).wf(),
            match report {
                Report::StatusReport(_) => *final(self) == *old(self) && r is None,
                Report::PositionReport(pr) => {
                    let (m, ev) = add_spec(
                        old(self).statuses(),
                        first_id_text(pr.comments@),
                        spec_beacon_of_report(*pr, now as int, clock as int),
                    );
                    &&& (final(self).statuses(), final(self).counter()) == maintain_spec(
                        m,
                        old(self).counter(),
                    )
                    &&& event_matches(r, ev)
                },
            },
    {
        match report {
            Report::PositionReport(pr) => {
                let id = pr.id();
                let beacon = beacon_of_report(pr, now, clock);
                proof {
                    assert(opt_view(id) == first_id_text(pr.comments@));
                }
                let event = self.add_position_report(id, beacon);
                self.maintain();
                event
            },
            Report::StatusReport(_) => None,
        }
    }
}

impl Default for EventDetector {
    fn default() -> (r: Self)
        ensures
            r.wf(),
            r.statuses() == Map::<Seq<char>, StatusView>::empty(),
            r.counter() == 0,
    {
        EventDetector::new()
    }
}

pub open spec fn opt_view(id: Option<String>) -> Option<Seq<char>> {
    match id {
        Some(i) => Some(i@),
        None => None,
    }
}

fn same_state(a: Option<AircraftState>, b: Option<AircraftState>) -> (r: bool)
    ensures
        r == (a == b),
{
    match (a, b) {
        (None, None) => true,
        (Some(AircraftState::Airborne), Some(AircraftState::Airborne)) => true,
        (Some(AircraftState::OnGround), Some(AircraftState::OnGround)) => true,
        _ => false,
    }
}

} // verus!
