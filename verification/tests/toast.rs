use adsb_radar::alerts::AlertClass;
use adsb_radar::classify::UiAircraft;
use adsb_radar::double::Double;
use adsb_radar::feeds::Altitude;
use adsb_radar::toast::{fmt_alt, primary_reason, test_toast, toast};

fn num(x: f64) -> Double {
    Double::from_bits(x.to_bits())
}

fn contact() -> UiAircraft {
    UiAircraft {
        hex: "abc123".to_string(),
        flight: None,
        reg: None,
        t: None,
        desc: None,
        operator: None,
        lat: None,
        lon: None,
        alt_baro: None,
        gs: None,
        track: None,
        baro_rate: None,
        squawk: None,
        emergency: None,
        category: None,
        db_flags: 0,
        seen: None,
        dst_km: None,
        bearing: None,
        airport: None,
        airport_name: None,
        overhead: false,
        interesting: false,
        is_emergency: false,
        reasons: Vec::new(),
    }
}

#[test]
fn altitudes_in_words() {
    let mut c = contact();
    assert_eq!(fmt_alt(&c), "alt ?");
    c.alt_baro = Some(Altitude::Feet(num(35000.0)));
    assert_eq!(fmt_alt(&c), "35000 ft");
    c.alt_baro = Some(Altitude::Feet(num(-25.0)));
    assert_eq!(fmt_alt(&c), "-25 ft");
    c.alt_baro = Some(Altitude::Ground);
    assert_eq!(fmt_alt(&c), "on ground");
    c.airport = Some("ORD".to_string());
    assert_eq!(fmt_alt(&c), "on ground @ ORD");
}

#[test]
fn headlines_take_the_first_reason() {
    let mut c = contact();
    assert_eq!(primary_reason(&c), "Nearby traffic");
    c.overhead = true;
    c.reasons = vec!["overhead".to_string()];
    assert_eq!(primary_reason(&c), "Overhead");
    c.reasons.push("watchlist:C17".to_string());
    c.reasons.push("military".to_string());
    assert_eq!(primary_reason(&c), "Watchlist C17");
    c.reasons = vec!["military".to_string(), "interesting".to_string()];
    assert_eq!(primary_reason(&c), "Military traffic");
    c.reasons = vec!["balloon".to_string()];
    assert_eq!(primary_reason(&c), "Balloon");
    c.reasons = vec!["interesting".to_string()];
    assert_eq!(primary_reason(&c), "Interesting aircraft");
}

#[test]
fn interesting_contacts_in_words() {
    let mut c = contact();
    let t = toast(AlertClass::Interesting, &c, "adsb.lol", "12", 1);
    assert_eq!(t.class, "interesting");
    assert_eq!(t.title, "✈ Nearby traffic");
    assert_eq!(t.body, "abc123 · type ? · alt ? · position unknown");
    assert_eq!(t.hex, "abc123");
    c.flight = Some("".to_string());
    c.reg = Some("N1".to_string());
    c.desc = Some("BOEING".to_string());
    c.dst_km = Some(num(12.3));
    let t = toast(AlertClass::Interesting, &c, "adsb.lol", "12", 1);
    assert_eq!(t.body, "N1 · BOEING · alt ? · position unknown");
    c.bearing = Some(num(45.0));
    c.flight = Some("UAL1".to_string());
    c.t = Some("B738".to_string());
    let t = toast(AlertClass::Interesting, &c, "adsb.lol", "12", 1);
    assert_eq!(t.body, "UAL1 · B738 · alt ? · 12 km NE");
}

#[test]
fn emergencies_in_words() {
    let mut c = contact();
    let t = toast(AlertClass::Emergency, &c, "adsb.fi", "0", 0);
    assert_eq!(t.class, "emergency");
    assert_eq!(t.title, "🚨 EMERGENCY — emergency");
    assert_eq!(t.body, "abc123 · type ? · alt ? · position unknown · via adsb.fi");
    c.squawk = Some("7600".to_string());
    c.emergency = Some("none".to_string());
    assert_eq!(toast(AlertClass::Emergency, &c, "", "0", 0).title, "🚨 EMERGENCY — squawk 7600");
    c.emergency = Some("nordo".to_string());
    assert_eq!(toast(AlertClass::Emergency, &c, "", "0", 0).title, "🚨 EMERGENCY — nordo");
}

#[test]
fn test_alert_says_so() {
    let t = test_toast();
    assert_eq!((t.class.as_str(), t.hex.as_str()), ("interesting", "test"));
    assert_eq!(t.title, "✈ Test contact");
    assert_eq!(t.body, "RADAR1 · B738 · 2,500 ft · 1 km N — toasts are working");
}
