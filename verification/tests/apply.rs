use when::CivilDateTime;
use when::DateParseError;
use when::DateSpec;
use when::Field;
use when::Gazetteer;
use when::InputExpr;
use when::TimeAtLocation;
use when::TimeSpec;
use when::civil_from_epoch;
use when::days_in_month;
use when::epoch_from_civil;
use when::find_zone;
use when::is_leap_year;

fn civil(year: i32, month: u32, day: u32, hour: u32, minute: u32, second: u32) -> CivilDateTime {
    CivilDateTime { year, month, day, hour, minute, second }
}

fn utc_gazetteer() -> Gazetteer {
    Gazetteer::new(
        vec!["UTC".to_string(), "Europe/Vienna".to_string(), "America/New_York".to_string()],
        vec![],
        vec![],
        None,
    )
}

fn at(gaz: &Gazetteer, zone: &str, c: CivilDateTime) -> TimeAtLocation {
    TimeAtLocation { epoch: epoch_from_civil(&c), zone_ref: find_zone(gaz, zone).unwrap() }
}

fn expr(time_spec: Option<TimeSpec>, date_spec: Option<DateSpec>) -> InputExpr {
    InputExpr { time_spec, date_spec, locations: vec![] }
}

#[test]
fn calendar_epoch_zero() {
    assert_eq!(epoch_from_civil(&civil(1970, 1, 1, 0, 0, 0)), 0);
    assert_eq!(epoch_from_civil(&civil(1970, 1, 1, 23, 59, 59)), 86399);
    assert_eq!(epoch_from_civil(&civil(2021, 10, 13, 21, 20, 0)), 1634160000);
}

#[test]
fn calendar_round_trip() {
    for &e in &[0i64, 86399, 1634160000, -1, -62135596800, 253402300799, 951782399] {
        let c = civil_from_epoch(e);
        assert_eq!(epoch_from_civil(&c), e);
    }
    let c = civil_from_epoch(1634160000);
    assert_eq!((c.year, c.month, c.day, c.hour, c.minute, c.second), (2021, 10, 13, 21, 20, 0));
}

#[test]
fn calendar_leap_rules() {
    assert!(is_leap_year(2024));
    assert!(!is_leap_year(2023));
    assert!(!is_leap_year(1900));
    assert!(is_leap_year(2000));
    assert_eq!(days_in_month(2024, 2), 29);
    assert_eq!(days_in_month(2023, 2), 28);
    assert_eq!(days_in_month(2024, 4), 30);
    assert_eq!(days_in_month(2024, 12), 31);
}

#[test]
fn apply_day_31_in_30_day_month_fails_naming_day() {
    let gaz = utc_gazetteer();
    let t = at(&gaz, "utc", civil(2024, 4, 15, 12, 0, 0));
    let e = expr(None, Some(DateSpec::Abs { day: 31, month: None, year: None }));
    let r = e.apply(&t);
    assert!(matches!(r, Err(DateParseError::OutOfRange(Field::Day))));
}

#[test]
fn apply_month_out_of_range_fails_naming_month() {
    let gaz = utc_gazetteer();
    let t = at(&gaz, "utc", civil(2024, 4, 15, 12, 0, 0));
    let e = expr(None, Some(DateSpec::Abs { day: 1, month: Some(13), year: None }));
    assert!(matches!(e.apply(&t), Err(DateParseError::OutOfRange(Field::Month))));
    let e = expr(None, Some(DateSpec::Abs { day: 31, month: Some(6), year: None }));
    let t = at(&gaz, "utc", civil(2024, 3, 31, 12, 0, 0));
    assert!(matches!(e.apply(&t), Err(DateParseError::OutOfRange(Field::Month))));
}

#[test]
fn apply_year_invalidating_leap_day_fails_naming_year() {
    let gaz = utc_gazetteer();
    let t = at(&gaz, "utc", civil(2024, 3, 29, 12, 0, 0));
    let e = expr(None, Some(DateSpec::Abs { day: 29, month: Some(2), year: Some(2023) }));
    assert!(matches!(e.apply(&t), Err(DateParseError::OutOfRange(Field::Year))));
}

#[test]
fn apply_absolute_date_keeps_missing_fields() {
    let gaz = utc_gazetteer();
    let t = at(&gaz, "utc", civil(2024, 4, 15, 6, 30, 15));
    let e = expr(None, Some(DateSpec::Abs { day: 20, month: None, year: None }));
    let out = e.apply(&t).unwrap();
    let c = civil_from_epoch(out.epoch);
    assert_eq!((c.year, c.month, c.day, c.hour, c.minute, c.second), (2024, 4, 20, 6, 30, 15));
}

#[test]
fn apply_absolute_time_sets_all_three_fields() {
    let gaz = utc_gazetteer();
    let t = at(&gaz, "utc", civil(2024, 4, 15, 6, 30, 15));
    let e = expr(Some(TimeSpec::Abs { hour: 14, minute: 0, second: 0 }), None);
    let out = e.apply(&t).unwrap();
    let c = civil_from_epoch(out.epoch);
    assert_eq!((c.year, c.month, c.day, c.hour, c.minute, c.second), (2024, 4, 15, 14, 0, 0));
}

#[test]
fn apply_absolute_time_respects_zone_offset() {
    let gaz = utc_gazetteer();
    let now = epoch_from_civil(&civil(2024, 4, 15, 10, 0, 0));
    let t = TimeAtLocation { epoch: now, zone_ref: find_zone(&gaz, "Europe/Vienna").unwrap() };
    let e = expr(Some(TimeSpec::Abs { hour: 14, minute: 0, second: 0 }), None);
    let out = e.apply(&t).unwrap();
    assert_eq!(out.epoch, now + 7200);
    let c = out.datetime().unwrap();
    assert_eq!((c.hour, c.minute, c.second), (14, 0, 0));
}

#[test]
fn apply_relative_offsets_move_the_instant() {
    let gaz = utc_gazetteer();
    let t = at(&gaz, "utc", civil(2024, 4, 15, 12, 0, 0));
    let e = expr(Some(TimeSpec::Rel { hours: 3, minutes: 0, seconds: 0 }), None);
    assert_eq!(e.apply(&t).unwrap().epoch, t.epoch + 3 * 3600);
    let e = expr(Some(TimeSpec::Rel { hours: 0, minutes: -15, seconds: 0 }), None);
    assert_eq!(e.apply(&t).unwrap().epoch, t.epoch - 15 * 60);
    let e = expr(None, Some(DateSpec::Rel { days: 1 }));
    assert_eq!(e.apply(&t).unwrap().epoch, t.epoch + 86400);
    let e = expr(None, Some(DateSpec::Rel { days: -1 }));
    assert_eq!(e.apply(&t).unwrap().epoch, t.epoch - 86400);
}

#[test]
fn apply_no_overrides_returns_reference() {
    let gaz = utc_gazetteer();
    let t = at(&gaz, "utc", civil(2024, 4, 15, 12, 0, 0));
    let out = expr(None, None).apply(&t).unwrap();
    assert_eq!(out.epoch, t.epoch);
    assert_eq!(out.zone_ref.tz(), "UTC");
}

#[test]
fn apply_relative_past_supported_range_fails() {
    let gaz = utc_gazetteer();
    let t = at(&gaz, "utc", civil(9999, 12, 31, 12, 0, 0));
    let e = expr(None, Some(DateSpec::Rel { days: 10 }));
    assert!(matches!(e.apply(&t), Err(DateParseError::OutOfRange(Field::UnixTimestamp))));
}

#[test]
fn datetime_reads_wall_clock_in_zone() {
    let gaz = utc_gazetteer();
    let now = epoch_from_civil(&civil(2024, 4, 15, 12, 0, 0));
    let utc = TimeAtLocation { epoch: now, zone_ref: find_zone(&gaz, "utc").unwrap() };
    let vie = TimeAtLocation { epoch: now, zone_ref: find_zone(&gaz, "Europe/Vienna").unwrap() };
    assert_eq!(utc.datetime().unwrap().hour, 12);
    assert_eq!(vie.datetime().unwrap().hour, 14);
}
