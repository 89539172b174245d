use adsb_radar::classify::{classify, compass, surface, watch_entry_matches, watch_match, AirportTag, Measure};
use adsb_radar::config::Config;
use adsb_radar::double::Double;
use adsb_radar::feeds::{Aircraft, Altitude};

fn num(x: f64) -> Double {
    Double::from_bits(x.to_bits())
}

fn plane(hex: &str) -> Aircraft {
    Aircraft {
        hex: hex.to_string(),
        flight: None,
        r: None,
        t: None,
        desc: None,
        lat: None,
        lon: None,
        alt_baro: None,
        gs: None,
        track: None,
        baro_rate: None,
        squawk: None,
        emergency: None,
        category: None,
        db_flags: None,
        seen: None,
    }
}

fn near(hex: &str, km: f64) -> (Aircraft, Option<Measure>) {
    let mut a = plane(hex);
    a.lat = Some(num(41.9));
    a.lon = Some(num(-87.6));
    (a, Some(Measure { dst_km: num(km), bearing: num(90.0), airport: None }))
}

#[test]
fn ordinary_traffic_has_no_class() {
    let c = classify(&plane("abc123"), &Config::default(), &None);
    assert_eq!(c.hex, "abc123");
    assert!(!c.overhead && !c.interesting && !c.is_emergency);
    assert!(c.reasons.is_empty());
    assert_eq!(c.dst_km, None);
    assert_eq!(c.db_flags, 0);
}

#[test]
fn overhead_is_near_and_low() {
    let cfg = Config::default();
    let (mut a, m) = near("abc123", 4.0);
    a.alt_baro = Some(Altitude::Feet(num(6000.0)));
    let c = classify(&a, &cfg, &m);
    assert!(c.overhead);
    assert_eq!(c.reasons, vec!["overhead".to_string()]);
    assert_eq!(c.dst_km, Some(num(4.0)));
    assert_eq!(c.bearing, Some(num(90.0)));
    a.alt_baro = Some(Altitude::Feet(num(6000.1)));
    assert!(!classify(&a, &cfg, &m).overhead);
    // An unknown altitude does not keep it out.
    a.alt_baro = None;
    assert!(classify(&a, &cfg, &m).overhead);
    a.alt_baro = Some(Altitude::Other("\"?\"".to_string()));
    assert!(classify(&a, &cfg, &m).overhead);
    let (b, far) = near("abc123", 4.1);
    assert!(!classify(&b, &cfg, &far).overhead);
}

#[test]
fn grounded_contacts_are_tagged_and_not_overhead() {
    let (mut a, m) = near("abc123", 1.0);
    let tag = AirportTag { code: "ORD".to_string(), name: "O'Hare".to_string() };
    let m = m.map(|m| Measure { airport: Some(tag), ..m });
    let c = classify(&a, &Config::default(), &m);
    assert_eq!(c.airport, None);
    assert!(c.overhead);
    a.alt_baro = Some(Altitude::Ground);
    let c = classify(&a, &Config::default(), &m);
    assert!(!c.overhead);
    assert_eq!(c.airport.as_deref(), Some("ORD"));
    assert_eq!(c.airport_name.as_deref(), Some("O'Hare"));
}

#[test]
fn flags_and_balloons_are_interesting() {
    let cfg = Config::default();
    let mut a = plane("abc123");
    a.db_flags = Some(3);
    a.category = Some("B2".to_string());
    let c = classify(&a, &cfg, &None);
    assert!(c.interesting);
    assert_eq!(c.db_flags, 3);
    assert_eq!(
        c.reasons,
        vec!["military".to_string(), "interesting".to_string(), "balloon".to_string()]
    );
    a.db_flags = Some(12);
    a.category = Some("A3".to_string());
    assert!(!classify(&a, &cfg, &None).interesting);
    a.db_flags = Some(1);
    assert_eq!(classify(&a, &cfg, &None).operator.as_deref(), Some("Military"));
}

#[test]
fn watchlist_types_match_exactly() {
    let cfg = Config::default();
    let mut a = plane("abc123");
    a.t = Some(" c17 ".to_string());
    let c = classify(&a, &cfg, &None);
    assert!(c.interesting);
    assert_eq!(c.reasons, vec!["watchlist:C17".to_string()]);
    a.t = Some("C174".to_string());
    assert!(!classify(&a, &cfg, &None).interesting);
    // A bare entry is no callsign prefix.
    a.t = None;
    a.flight = Some("C174".to_string());
    assert!(!classify(&a, &cfg, &None).interesting);
}

#[test]
fn watchlist_prefixes_match_callsigns() {
    let mut cfg = Config::default();
    cfg.watchlist = vec!["".to_string(), " ".to_string(), "*".to_string(), " rch* ".to_string()];
    let mut a = plane("abc123");
    a.flight = Some(" Rch285 ".to_string());
    let c = classify(&a, &cfg, &None);
    assert_eq!(c.reasons, vec!["watchlist:RCH*".to_string()]);
    assert_eq!(c.flight.as_deref(), Some("Rch285"));
    assert_eq!(c.operator.as_deref(), Some("USAF · Air Mobility"));
    a.flight = Some("XRCH1".to_string());
    assert!(!classify(&a, &cfg, &None).interesting);
    a.flight = None;
    a.t = Some("RCH*".to_string());
    assert!(!classify(&a, &cfg, &None).interesting);
}

#[test]
fn watchlist_folds_beyond_ascii() {
    let mut cfg = Config::default();
    cfg.watchlist = vec!["straße*".to_string()];
    let mut a = plane("abc123");
    a.flight = Some("STRASSE1".to_string());
    assert_eq!(classify(&a, &cfg, &None).reasons, vec!["watchlist:STRASSE*".to_string()]);
}

#[test]
fn entries_are_tried_in_order() {
    let list = vec!["X1".to_string(), "AB*".to_string(), "ABC*".to_string()];
    assert_eq!(watch_match(&list, "", "ABC12").as_deref(), Some("AB*"));
    assert_eq!(watch_match(&list, "X1", "ABC12").as_deref(), Some("X1"));
    assert_eq!(watch_match(&list, "X2", "A"), None);
    assert!(watch_entry_matches("A*", "", "A"));
    assert!(!watch_entry_matches("*", "", "A"));
    assert!(!watch_entry_matches("", "", ""));
}

#[test]
fn emergency_field_outranks_the_squawk() {
    let cfg = Config::default();
    let mut a = plane("abc123");
    a.squawk = Some("7600".to_string());
    let c = classify(&a, &cfg, &None);
    assert!(c.is_emergency);
    assert_eq!(c.reasons, vec!["squawk:7600".to_string()]);
    a.emergency = Some("nordo".to_string());
    let c = classify(&a, &cfg, &None);
    assert_eq!(c.reasons, vec!["emergency:nordo".to_string()]);
    a.squawk = Some("1200".to_string());
    assert!(classify(&a, &cfg, &None).is_emergency);
    a.emergency = Some("none".to_string());
    assert!(!classify(&a, &cfg, &None).is_emergency);
    a.emergency = Some("".to_string());
    assert!(!classify(&a, &cfg, &None).is_emergency);
}

#[test]
fn surface_vehicles_have_no_class() {
    let cfg = Config::default();
    let (mut a, m) = near("abc123", 0.5);
    a.db_flags = Some(3);
    a.t = Some("C17".to_string());
    a.squawk = Some("7700".to_string());
    a.emergency = Some("general".to_string());
    for category in ["C1", "C2", "C3", "C4", "C5"] {
        a.category = Some(category.to_string());
        let c = classify(&a, &cfg, &m);
        assert!(!c.overhead && !c.interesting && !c.is_emergency);
        assert!(c.reasons.is_empty());
        assert_eq!(c.category.as_deref(), Some(category));
    }
    for category in ["C0", "C6", "A1", "C", "C12"] {
        a.category = Some(category.to_string());
        let c = classify(&a, &cfg, &m);
        assert!(c.overhead && c.interesting && c.is_emergency);
        assert!(!surface(&a.category));
    }
}

#[test]
fn compass_names_the_sectors() {
    let names = ["N", "NE", "E", "SE", "S", "SW", "W", "NW"];
    for (i, name) in names.iter().enumerate() {
        assert_eq!(compass(i), *name);
        assert_eq!(compass(i + 8), *name);
    }
}
