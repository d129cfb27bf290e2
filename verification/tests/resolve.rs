use when::Gazetteer;
use when::Location;
use when::LocationKind;
use when::ZoneRef;
use when::find_zone;

fn loc(
    name: &str,
    country: &str,
    admin: Option<&str>,
    aliases: &[&str],
    kind: LocationKind,
    tz: &str,
) -> Location {
    Location {
        name: name.to_string(),
        country: country.to_string(),
        admin_code: admin.map(|a| a.to_string()),
        aliases: aliases.iter().map(|a| a.to_string()).collect(),
        kind,
        tz: tz.to_string(),
    }
}

fn sample_gazetteer(local_zone: Option<&str>) -> Gazetteer {
    let zones = vec![
        "America/New_York".to_string(),
        "America/Toronto".to_string(),
        "America/Chicago".to_string(),
        "Europe/Vienna".to_string(),
        "Europe/Paris".to_string(),
        "Europe/Berlin".to_string(),
        "UTC".to_string(),
    ];
    let locations = vec![
        loc("Vienna", "AT", None, &["VIE"], LocationKind::City, "Europe/Vienna"),
        loc(
            "Toronto Pearson",
            "CA",
            None,
            &["YYZ"],
            LocationKind::Airport,
            "America/Toronto",
        ),
        loc("Paris", "FR", None, &["PAR"], LocationKind::City, "Europe/Paris"),
        loc(
            "Springfield",
            "US",
            Some("IL"),
            &[],
            LocationKind::City,
            "America/Chicago",
        ),
        loc(
            "Springfield",
            "US",
            Some("MA"),
            &[],
            LocationKind::City,
            "America/New_York",
        ),
    ];
    let countries = vec![
        ("AT".to_string(), "Austria".to_string()),
        ("CA".to_string(), "Canada".to_string()),
        ("FR".to_string(), "France".to_string()),
        ("US".to_string(), "United States".to_string()),
    ];
    Gazetteer::new(zones, locations, countries, local_zone.map(|z| z.to_string()))
}

#[test]
fn resolve_is_case_insensitive() {
    let gaz = sample_gazetteer(None);
    let a = find_zone(&gaz, "america/new_york").unwrap();
    let b = find_zone(&gaz, "America/New_York").unwrap();
    assert_eq!(a.name(), "America/New_York");
    assert_eq!(b.name(), "America/New_York");
    assert_eq!(a.tz(), b.tz());
    assert_eq!(a.kind(), b.kind());
    assert_eq!(a.kind(), LocationKind::Timezone);
}

#[test]
fn resolve_identifier_with_spaces() {
    let gaz = sample_gazetteer(None);
    let z = find_zone(&gaz, "America/New York").unwrap();
    assert_eq!(z.tz(), "America/New_York");
}

#[test]
fn resolve_three_letter_alias() {
    let gaz = sample_gazetteer(None);
    let z = find_zone(&gaz, "par").unwrap();
    assert_eq!(z.name(), "Paris");
    assert_eq!(z.tz(), "Europe/Paris");
    assert_eq!(z.kind(), LocationKind::City);
    let z = find_zone(&gaz, "YYZ").unwrap();
    assert_eq!(z.name(), "Toronto Pearson");
    assert_eq!(z.kind(), LocationKind::Airport);
}

#[test]
fn alias_match_needs_three_characters() {
    let gaz = sample_gazetteer(None);
    assert!(find_zone(&gaz, "pari").is_none());
}

#[test]
fn resolve_disambiguates_by_admin_code() {
    let gaz = sample_gazetteer(None);
    let il = find_zone(&gaz, "Springfield, IL").unwrap();
    assert_eq!(il.tz(), "America/Chicago");
    assert_eq!(il.admin_code().unwrap().as_str(), "IL");
    let ma = find_zone(&gaz, "Springfield, MA").unwrap();
    assert_eq!(ma.tz(), "America/New_York");
    assert_eq!(ma.admin_code().unwrap().as_str(), "MA");
    let sp = find_zone(&gaz, "springfield us").unwrap();
    assert_eq!(sp.tz(), "America/Chicago");
}

#[test]
fn resolve_plain_name_takes_first_record() {
    let gaz = sample_gazetteer(None);
    let sp = find_zone(&gaz, "springfield").unwrap();
    assert_eq!(sp.tz(), "America/Chicago");
    assert_eq!(sp.admin_code().unwrap().as_str(), "IL");
}

#[test]
fn resolve_unknown_token_fails() {
    let gaz = sample_gazetteer(None);
    assert!(find_zone(&gaz, "atlantis").is_none());
}

#[test]
fn resolve_local_uses_configured_zone() {
    let gaz = sample_gazetteer(Some("Europe/Berlin"));
    let z = find_zone(&gaz, "local").unwrap();
    assert_eq!(z.tz(), "Europe/Berlin");
    let z = find_zone(&gaz, "LOCAL").unwrap();
    assert_eq!(z.tz(), "Europe/Berlin");
}

#[test]
fn resolve_local_falls_back_to_utc() {
    let gaz = sample_gazetteer(None);
    let z = find_zone(&gaz, "local").unwrap();
    assert_eq!(z.tz(), "UTC");
    assert!(z.is_utc());
}

#[test]
fn is_utc_checks_canonical_names_only() {
    let gaz = sample_gazetteer(None);
    assert!(find_zone(&gaz, "utc").unwrap().is_utc());
    assert!(!find_zone(&gaz, "vie").unwrap().is_utc());
    assert!(!find_zone(&gaz, "Europe/Berlin").unwrap().is_utc());
}

#[test]
fn country_and_display() {
    let gaz = sample_gazetteer(None);
    let vie = find_zone(&gaz, "vie").unwrap();
    assert_eq!(vie.country(&gaz).unwrap(), "Austria");
    assert_eq!(vie.display(&gaz), "Vienna; Austria");
    let il = find_zone(&gaz, "Springfield, IL").unwrap();
    assert_eq!(il.display(&gaz), "Springfield, IL; United States");
    let tz = find_zone(&gaz, "UTC").unwrap();
    assert!(tz.country(&gaz).is_none());
    assert!(tz.admin_code().is_none());
    assert_eq!(tz.display(&gaz), "UTC");
}

#[test]
fn zone_precedence_prefers_identifiers() {
    let zones = vec!["UTC".to_string(), "Europe/Vienna".to_string()];
    let locations = vec![loc("UTC", "US", None, &[], LocationKind::City, "America/Chicago")];
    let gaz = Gazetteer::new(zones, locations, vec![], None);
    let z = find_zone(&gaz, "utc").unwrap();
    assert_eq!(z.kind(), LocationKind::Timezone);
    assert_eq!(z.tz(), "UTC");
}

#[test]
fn host_gazetteer_resolves_real_identifiers() {
    let gaz = Gazetteer::from_host(vec![], vec![]);
    let z = find_zone(&gaz, "america/new_york").unwrap();
    assert_eq!(z.tz(), "America/New_York");
    assert!(find_zone(&gaz, "Etc/UTC").unwrap().is_utc());
}

#[test]
fn resolved_record_matches_gazetteer_entry() {
    let gaz = sample_gazetteer(None);
    match find_zone(&gaz, "vie").unwrap() {
        ZoneRef::Location(l) => {
            assert_eq!(l.name, "Vienna");
            assert_eq!(l.country, "AT");
            assert_eq!(l.aliases, vec!["VIE".to_string()]);
        },
        other => panic!("expected a gazetteer record, got {:?}", other),
    }
}
