use when::CivilDateTime;
use when::DateParseError;
use when::DateSpec;
use when::Field;
use when::InputExpr;
use when::TimeSpec;
use when::civil_from_epoch;
use when::parse_input;

#[test]
fn parse_now_has_no_overrides() {
    let e = InputExpr::parse("now").unwrap();
    assert!(e.time_spec.is_none());
    assert!(e.date_spec.is_none());
    assert!(e.locations.is_empty());
    assert!(e.location().is_none());
    assert!(e.to_locations().is_empty());
    assert!(e.is_relative());
}

#[test]
fn parse_now_case_and_spacing() {
    let e = InputExpr::parse("  NOW  ").unwrap();
    assert!(e.time_spec.is_none());
    assert!(e.date_spec.is_none());
    assert!(e.locations.is_empty());
}

#[test]
fn parse_two_pm() {
    let e = InputExpr::parse("2pm").unwrap();
    assert_eq!(e.time_spec, Some(TimeSpec::Abs { hour: 14, minute: 0, second: 0 }));
    assert!(e.date_spec.is_none());
    assert!(!e.is_relative());
}

#[test]
fn parse_meridiem_edge_cases() {
    let e = InputExpr::parse("12am").unwrap();
    assert_eq!(e.time_spec, Some(TimeSpec::Abs { hour: 0, minute: 0, second: 0 }));
    let e = InputExpr::parse("12pm").unwrap();
    assert_eq!(e.time_spec, Some(TimeSpec::Abs { hour: 12, minute: 0, second: 0 }));
    let e = InputExpr::parse("11pm").unwrap();
    assert_eq!(e.time_spec, Some(TimeSpec::Abs { hour: 23, minute: 0, second: 0 }));
    let e = InputExpr::parse("9am").unwrap();
    assert_eq!(e.time_spec, Some(TimeSpec::Abs { hour: 9, minute: 0, second: 0 }));
}

#[test]
fn parse_clock_forms() {
    let e = InputExpr::parse("14:30").unwrap();
    assert_eq!(e.time_spec, Some(TimeSpec::Abs { hour: 14, minute: 30, second: 0 }));
    let e = InputExpr::parse("14:30:59").unwrap();
    assert_eq!(e.time_spec, Some(TimeSpec::Abs { hour: 14, minute: 30, second: 59 }));
    let e = InputExpr::parse("2:30 pm").unwrap();
    assert_eq!(e.time_spec, Some(TimeSpec::Abs { hour: 14, minute: 30, second: 0 }));
    let e = InputExpr::parse("noon").unwrap();
    assert_eq!(e.time_spec, Some(TimeSpec::Abs { hour: 12, minute: 0, second: 0 }));
    let e = InputExpr::parse("midnight").unwrap();
    assert_eq!(e.time_spec, Some(TimeSpec::Abs { hour: 0, minute: 0, second: 0 }));
}

#[test]
fn parse_chain_with_time() {
    let e = InputExpr::parse("2pm in vie -> yyz").unwrap();
    assert_eq!(e.time_spec, Some(TimeSpec::Abs { hour: 14, minute: 0, second: 0 }));
    assert_eq!(e.location().unwrap().as_str(), "vie");
    let to = e.to_locations();
    assert_eq!(to.len(), 1);
    assert_eq!(to[0].as_str(), "yyz");
    assert_eq!(e.locations, vec!["vie".to_string(), "yyz".to_string()]);
}

#[test]
fn parse_longer_chain_drops_empty_tokens() {
    let e = InputExpr::parse("in vie ->  -> yyz -> sfo").unwrap();
    assert_eq!(
        e.locations,
        vec!["vie".to_string(), "yyz".to_string(), "sfo".to_string()]
    );
}

#[test]
fn parse_relative_hours() {
    let e = InputExpr::parse("+3h").unwrap();
    assert_eq!(e.time_spec, Some(TimeSpec::Rel { hours: 3, minutes: 0, seconds: 0 }));
    assert!(e.is_relative());
}

#[test]
fn parse_relative_signed_groups() {
    let e = InputExpr::parse("-15m").unwrap();
    assert_eq!(e.time_spec, Some(TimeSpec::Rel { hours: 0, minutes: -15, seconds: 0 }));
    let e = InputExpr::parse("+1h30m45s").unwrap();
    assert_eq!(e.time_spec, Some(TimeSpec::Rel { hours: 1, minutes: 30, seconds: 45 }));
    let e = InputExpr::parse("-2h5s").unwrap();
    assert_eq!(e.time_spec, Some(TimeSpec::Rel { hours: -2, minutes: 0, seconds: -5 }));
}

#[test]
fn parse_relative_dates() {
    let e = InputExpr::parse("today").unwrap();
    assert_eq!(e.date_spec, Some(DateSpec::Rel { days: 0 }));
    let e = InputExpr::parse("tomorrow").unwrap();
    assert_eq!(e.date_spec, Some(DateSpec::Rel { days: 1 }));
    let e = InputExpr::parse("yesterday").unwrap();
    assert_eq!(e.date_spec, Some(DateSpec::Rel { days: -1 }));
    let e = InputExpr::parse("in 5 days").unwrap();
    assert_eq!(e.date_spec, Some(DateSpec::Rel { days: 5 }));
    let e = InputExpr::parse("in -3 days").unwrap();
    assert_eq!(e.date_spec, Some(DateSpec::Rel { days: -3 }));
}

#[test]
fn parse_english_dates() {
    let e = InputExpr::parse("March 4th 2024").unwrap();
    assert_eq!(
        e.date_spec,
        Some(DateSpec::Abs { day: 4, month: Some(3), year: Some(2024) })
    );
    let e = InputExpr::parse("4th March").unwrap();
    assert_eq!(e.date_spec, Some(DateSpec::Abs { day: 4, month: Some(3), year: None }));
    let e = InputExpr::parse("march 4").unwrap();
    assert_eq!(e.date_spec, Some(DateSpec::Abs { day: 4, month: Some(3), year: None }));
    let e = InputExpr::parse("21st").unwrap();
    assert_eq!(e.date_spec, Some(DateSpec::Abs { day: 21, month: None, year: None }));
}

#[test]
fn parse_numeric_dates() {
    let e = InputExpr::parse("4/7").unwrap();
    assert_eq!(e.date_spec, Some(DateSpec::Abs { day: 4, month: Some(7), year: None }));
    let e = InputExpr::parse("4/7/2024").unwrap();
    assert_eq!(
        e.date_spec,
        Some(DateSpec::Abs { day: 4, month: Some(7), year: Some(2024) })
    );
    let e = InputExpr::parse("24.12.2023").unwrap();
    assert_eq!(
        e.date_spec,
        Some(DateSpec::Abs { day: 24, month: Some(12), year: Some(2023) })
    );
}

#[test]
fn parse_time_and_date_in_either_order() {
    let e = InputExpr::parse("2pm tomorrow").unwrap();
    assert_eq!(e.time_spec, Some(TimeSpec::Abs { hour: 14, minute: 0, second: 0 }));
    assert_eq!(e.date_spec, Some(DateSpec::Rel { days: 1 }));
    let e = InputExpr::parse("tomorrow 2pm").unwrap();
    assert_eq!(e.time_spec, Some(TimeSpec::Abs { hour: 14, minute: 0, second: 0 }));
    assert_eq!(e.date_spec, Some(DateSpec::Rel { days: 1 }));
    let e = InputExpr::parse("14:30 4/7/2024 in berlin").unwrap();
    assert_eq!(e.time_spec, Some(TimeSpec::Abs { hour: 14, minute: 30, second: 0 }));
    assert_eq!(
        e.date_spec,
        Some(DateSpec::Abs { day: 4, month: Some(7), year: Some(2024) })
    );
    assert_eq!(e.locations, vec!["berlin".to_string()]);
}

#[test]
fn parse_unix_literal_sets_both_and_implies_utc() {
    let e = InputExpr::parse("1634160000").unwrap();
    let c: CivilDateTime = civil_from_epoch(1634160000);
    assert_eq!(
        e.time_spec,
        Some(TimeSpec::Abs {
            hour: c.hour as i32,
            minute: c.minute as i32,
            second: c.second as i32
        })
    );
    assert_eq!(
        e.date_spec,
        Some(DateSpec::Abs {
            day: c.day as i32,
            month: Some(c.month as i32),
            year: Some(c.year)
        })
    );
    assert_eq!(e.locations, vec!["utc".to_string()]);
}

#[test]
fn parse_unix_literal_keeps_explicit_location() {
    let e = InputExpr::parse("1634160000 in vie").unwrap();
    assert_eq!(e.locations, vec!["vie".to_string()]);
}

#[test]
fn parse_explicit_location_never_overridden() {
    let e = InputExpr::parse("2pm in vie").unwrap();
    assert_eq!(e.locations, vec!["vie".to_string()]);
}

#[test]
fn parse_unix_literal_out_of_range() {
    let r = parse_input("999999999999999999");
    assert!(matches!(r, Err(DateParseError::OutOfRange(Field::UnixTimestamp))));
}

#[test]
fn parse_trailing_garbage() {
    let r = parse_input("2pm xyz");
    match r {
        Err(DateParseError::Garbage(s)) => assert_eq!(s, " xyz"),
        other => panic!("expected garbage error, got {:?}", other),
    }
}

#[test]
fn parse_grammar_error() {
    let r = parse_input("???");
    match r {
        Err(DateParseError::Parser { expected, position }) => {
            assert!(!expected.is_empty());
            assert_eq!(position, 0);
        },
        other => panic!("expected parser error, got {:?}", other),
    }
}

#[test]
fn parse_meridiem_hour_must_be_one_to_twelve() {
    assert!(matches!(parse_input("0am"), Err(DateParseError::Parser { .. })));
    assert!(matches!(parse_input("13pm"), Err(DateParseError::Parser { .. })));
}

#[test]
fn parse_empty_input_means_no_overrides() {
    let e = InputExpr::parse("").unwrap();
    assert!(e.time_spec.is_none());
    assert!(e.date_spec.is_none());
    assert!(e.locations.is_empty());
}
