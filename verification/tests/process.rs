use when::CivilDateTime;
use when::DateParseError;
use when::Gazetteer;
use when::InputExpr;
use when::Location;
use when::LocationKind;
use when::TimeOfDay;
use when::epoch_from_civil;
use when::get_time_of_day;

fn loc(name: &str, country: &str, aliases: &[&str], tz: &str) -> Location {
    Location {
        name: name.to_string(),
        country: country.to_string(),
        admin_code: None,
        aliases: aliases.iter().map(|a| a.to_string()).collect(),
        kind: LocationKind::City,
        tz: tz.to_string(),
    }
}

fn gazetteer(local_zone: Option<&str>) -> Gazetteer {
    let zones = vec![
        "Europe/Vienna".to_string(),
        "America/Toronto".to_string(),
        "Europe/Berlin".to_string(),
        "UTC".to_string(),
    ];
    let locations = vec![
        loc("Vienna", "AT", &["VIE"], "Europe/Vienna"),
        loc("Toronto", "CA", &["YYZ"], "America/Toronto"),
    ];
    Gazetteer::new(zones, locations, vec![], local_zone.map(|z| z.to_string()))
}

fn noon_utc() -> i64 {
    epoch_from_civil(&CivilDateTime { year: 2024, month: 4, day: 15, hour: 12, minute: 0, second: 0 })
}

#[test]
fn chain_preserves_the_instant_across_zones() {
    let gaz = gazetteer(Some("Europe/Berlin"));
    let e = InputExpr::parse("2pm in vie -> yyz").unwrap();
    let rv = e.process_at(&gaz, noon_utc()).unwrap();
    assert_eq!(rv.len(), 2);
    assert_eq!(rv[0].epoch, rv[1].epoch);
    assert_eq!(rv[0].zone_ref.tz(), "Europe/Vienna");
    assert_eq!(rv[1].zone_ref.tz(), "America/Toronto");
    let vie = rv[0].datetime().unwrap();
    assert_eq!((vie.hour, vie.minute, vie.second), (14, 0, 0));
    let yyz = rv[1].datetime().unwrap();
    assert_eq!((yyz.hour, yyz.minute, yyz.second), (8, 0, 0));
    assert_eq!(epoch_from_civil(&vie) - epoch_from_civil(&yyz), 6 * 3600);
}

#[test]
fn source_only_expression_adds_implicit_local_result() {
    let gaz = gazetteer(Some("Europe/Berlin"));
    let e = InputExpr::parse("2pm in vie").unwrap();
    let rv = e.process_at(&gaz, noon_utc()).unwrap();
    assert_eq!(rv.len(), 2);
    assert_eq!(rv[0].zone_ref.tz(), "Europe/Vienna");
    assert_eq!(rv[1].zone_ref.tz(), "Europe/Berlin");
    assert_eq!(rv[0].epoch, rv[1].epoch);
}

#[test]
fn no_implicit_result_when_local_matches_source() {
    let gaz = gazetteer(Some("Europe/Vienna"));
    let e = InputExpr::parse("2pm in vie").unwrap();
    let rv = e.process_at(&gaz, noon_utc()).unwrap();
    assert_eq!(rv.len(), 1);
    assert_eq!(rv[0].zone_ref.tz(), "Europe/Vienna");
}

#[test]
fn bare_now_resolves_to_single_local_result() {
    let gaz = gazetteer(Some("Europe/Berlin"));
    let e = InputExpr::parse("now").unwrap();
    let rv = e.process_at(&gaz, noon_utc()).unwrap();
    assert_eq!(rv.len(), 1);
    assert_eq!(rv[0].zone_ref.tz(), "Europe/Berlin");
    assert_eq!(rv[0].epoch, noon_utc());
}

#[test]
fn unknown_source_token_is_reported() {
    let gaz = gazetteer(None);
    let e = InputExpr::parse("2pm in atlantis").unwrap();
    match e.process_at(&gaz, noon_utc()) {
        Err(DateParseError::MissingLocation(tok)) => assert_eq!(tok, "atlantis"),
        other => panic!("expected a missing-location error, got {:?}", other),
    }
}

#[test]
fn unknown_target_token_is_reported() {
    let gaz = gazetteer(None);
    let e = InputExpr::parse("2pm in vie -> atlantis").unwrap();
    match e.process_at(&gaz, noon_utc()) {
        Err(DateParseError::MissingLocation(tok)) => assert_eq!(tok, "atlantis"),
        other => panic!("expected a missing-location error, got {:?}", other),
    }
}

#[test]
fn unix_expression_defaults_to_utc_source() {
    let gaz = gazetteer(Some("UTC"));
    let e = InputExpr::parse("1634160000").unwrap();
    let rv = e.process_at(&gaz, noon_utc()).unwrap();
    assert_eq!(rv[0].zone_ref.tz(), "UTC");
    assert_eq!(rv[0].epoch, 1634160000);
}

#[test]
fn process_against_host_clock() {
    let gaz = gazetteer(Some("Europe/Berlin"));
    let e = InputExpr::parse("in vie -> yyz").unwrap();
    let rv = e.process(&gaz).unwrap();
    assert_eq!(rv.len(), 2);
    assert_eq!(rv[0].epoch, rv[1].epoch);
}

#[test]
fn evaluation_errors_propagate_through_process() {
    let gaz = gazetteer(Some("UTC"));
    let e = InputExpr::parse("31st in utc").unwrap();
    match e.process_at(&gaz, noon_utc()) {
        Err(when::DateParseError::OutOfRange(f)) => assert_eq!(f, when::Field::Day),
        other => panic!("expected a day out-of-range error, got {:?}", other),
    }
}

#[test]
fn time_of_day_labels() {
    let c = |hour: u32| CivilDateTime { year: 2024, month: 4, day: 15, hour, minute: 0, second: 0 };
    assert_eq!(get_time_of_day(&c(5)), TimeOfDay::EarlyMorning);
    assert_eq!(get_time_of_day(&c(7)), TimeOfDay::Morning);
    assert_eq!(get_time_of_day(&c(10)), TimeOfDay::LateMorning);
    assert_eq!(get_time_of_day(&c(12)), TimeOfDay::Noon);
    assert_eq!(get_time_of_day(&c(14)), TimeOfDay::Afternoon);
    assert_eq!(get_time_of_day(&c(17)), TimeOfDay::EarlyEvening);
    assert_eq!(get_time_of_day(&c(20)), TimeOfDay::Evening);
    assert_eq!(get_time_of_day(&c(22)), TimeOfDay::LateEvening);
    assert_eq!(get_time_of_day(&c(23)), TimeOfDay::Night);
    assert_eq!(get_time_of_day(&c(2)), TimeOfDay::Night);
    assert_eq!(get_time_of_day(&c(14)).text(), "afternoon");
}
