use adsb_radar::alerts::AlertClass;
use adsb_radar::classify::{classify, Measure, UiAircraft};
use adsb_radar::config::Config;
use adsb_radar::double::Double;
use adsb_radar::feeds::Aircraft;
use adsb_radar::radar::{
    catch_contact, catch_contact_at, emergencies, events, survey, Radar, SquawkSweep,
};
use adsb_radar::store::Store;

const SECOND: u128 = 1_000_000_000;

fn num(x: f64) -> Double {
    Double::from_bits(x.to_bits())
}

fn plane(hex: &str) -> Aircraft {
    Aircraft {
        hex: hex.to_string(),
        flight: None,
        r: None,
        t: None,
        desc: None,
        lat: None,
        lon: None,
        alt_baro: None,
        gs: None,
        track: None,
        baro_rate: None,
        squawk: None,
        emergency: None,
        category: None,
        db_flags: None,
        seen: None,
    }
}

fn at(hex: &str, km: f64) -> (Aircraft, Option<Measure>) {
    let mut a = plane(hex);
    a.lat = Some(num(1.0));
    a.lon = Some(num(2.0));
    (a, Some(Measure { dst_km: num(km), bearing: num(0.0), airport: None }))
}

fn military(hex: &str) -> UiAircraft {
    let mut a = plane(hex);
    a.db_flags = Some(1);
    classify(&a, &Config::default(), &None)
}

fn mayday(hex: &str) -> UiAircraft {
    let mut a = plane(hex);
    a.emergency = Some("general".to_string());
    classify(&a, &Config::default(), &None)
}

fn quiet(hex: &str) -> UiAircraft {
    classify(&plane(hex), &Config::default(), &None)
}

#[test]
fn survey_drops_stale_and_sorts_by_distance() {
    let (mut stale, m0) = at("stale", 1.0);
    stale.seen = Some(num(60.0));
    let (far, m1) = at("far", 90.0);
    let (near, m2) = at("near", 8.5);
    let (twin, m3) = at("twin", 8.5);
    let (odd, m4) = at("odd", f64::NAN);
    let records = vec![stale, plane("nowhere"), far, odd, near, twin];
    let measures = vec![m0, None, m1, m4, m2, m3];
    let ac = survey(&records, &measures, &Config::default());
    let hexes: Vec<&str> = ac.iter().map(|a| a.hex.as_str()).collect();
    assert_eq!(hexes, ["near", "twin", "far", "nowhere", "odd"]);
}

#[test]
fn local_poll_fires_interesting_before_emergencies() {
    let mut radar = Radar::new();
    let ac = vec![mayday("e"), quiet("q"), military("m")];
    assert_eq!(events(&ac), [0, 2]);
    let fire = radar.local_poll_at(&ac, 600, 0);
    assert_eq!(fire, [(AlertClass::Interesting, 2), (AlertClass::Emergency, 0)]);
    assert!(radar.local_poll_at(&ac, 600, SECOND).is_empty());
}

#[test]
fn cooldown_is_counted_in_seconds() {
    let mut radar = Radar::new();
    let ac = vec![military("m")];
    assert_eq!(radar.local_poll_at(&ac, 600, 0).len(), 1);
    assert!(radar.local_poll_at(&vec![quiet("m")], 600, SECOND).is_empty());
    assert!(radar.local_poll_at(&ac, 600, 599 * SECOND).is_empty());
    assert!(radar.local_poll_at(&vec![], 600, 599 * SECOND + 1).is_empty());
    assert_eq!(radar.local_poll_at(&ac, 600, 600 * SECOND).len(), 1);
}

#[test]
fn same_address_twice_fires_once() {
    let mut radar = Radar::new();
    let fire = radar.local_poll_at(&vec![military("m"), military("m")], 600, 0);
    assert_eq!(fire, [(AlertClass::Interesting, 0)]);
}

#[test]
fn pollers_do_not_clear_each_other() {
    let mut radar = Radar::new();
    assert_eq!(radar.global_poll_at(&vec![mayday("g")], 0, 0), [0]);
    // The contact is not in local range, and stays an emergency.
    assert!(radar.local_poll_at(&vec![mayday("l")], 0, SECOND).len() == 1);
    assert!(radar.global_poll_at(&vec![mayday("g")], 0, 2 * SECOND).is_empty());
    assert!(radar.local_poll_at(&vec![mayday("l")], 0, 3 * SECOND).is_empty());
    // What one poller saw first is no news to the other.
    assert!(radar.local_poll_at(&vec![mayday("g"), mayday("l")], 0, 4 * SECOND).is_empty());
    // Gone from both, it alerts again.
    assert!(radar.global_poll_at(&vec![], 0, 5 * SECOND).is_empty());
    assert!(radar.local_poll_at(&vec![], 0, 6 * SECOND).is_empty());
    assert_eq!(radar.global_poll_at(&vec![mayday("g")], 0, 7 * SECOND), [0]);
}

#[test]
fn sweep_trusts_the_endpoint_for_aircraft() {
    let cfg = Config::default();
    let mut sweep = SquawkSweep::new();
    assert_eq!(sweep.via(), "global");
    let mut stale = plane("stale");
    stale.seen = Some(num(120.5));
    let mut late = plane("late");
    late.seen = Some(num(120.0));
    late.squawk = Some("1200".to_string());
    let mut truck = plane("truck");
    truck.category = Some("C2".to_string());
    let mut known = plane("known");
    known.squawk = Some("7700".to_string());
    sweep.add_reply(
        "adsb.fi",
        "7700",
        &vec![stale, late, truck, known],
        &vec![None, None, None, None],
        &cfg,
    );
    assert_eq!(sweep.via(), "adsb.fi");
    let hits = sweep.hits();
    let hexes: Vec<&str> = hits.iter().map(|a| a.hex.as_str()).collect();
    assert_eq!(hexes, ["late", "truck", "known"]);
    assert!(hits[0].is_emergency);
    assert_eq!(hits[0].reasons, ["squawk:7700"]);
    assert!(!hits[1].is_emergency);
    assert_eq!(hits[2].reasons, ["squawk:7700"]);
    assert_eq!(emergencies(hits), [0, 2]);
    let mut radar = Radar::new();
    assert_eq!(radar.global_poll_at(hits, 600, 0), [0, 2]);
}

#[test]
fn later_replies_replace_a_contact() {
    let cfg = Config::default();
    let mut sweep = SquawkSweep::new();
    sweep.add_reply("a", "7500", &vec![plane("x"), plane("y")], &vec![None, None], &cfg);
    sweep.add_reply("b", "7600", &vec![plane("x")], &vec![None], &cfg);
    sweep.add_reply("c", "7700", &vec![], &vec![], &cfg);
    assert_eq!(sweep.via(), "c");
    assert_eq!(sweep.hits().len(), 2);
    assert_eq!(sweep.hits()[0].hex, "x");
    assert_eq!(sweep.hits()[0].reasons, ["squawk:7600"]);
    assert_eq!(sweep.hits()[1].reasons, ["squawk:7500"]);
}

#[test]
fn latest_contacts_are_kept() {
    let mut radar = Radar::new();
    radar.local_poll_at(&vec![quiet("a"), quiet("b")], 600, 0);
    radar.global_poll_at(&vec![mayday("g")], 600, 1);
    assert_eq!(radar.latest("a").unwrap().hex, "a");
    assert!(radar.latest("g").unwrap().is_emergency);
    assert!(radar.latest("z").is_none());
    // A local reply starts over.
    radar.local_poll_at(&vec![quiet("b")], 600, 2);
    assert!(radar.latest("a").is_none());
    assert!(radar.latest("g").is_none());
    assert!(radar.latest("b").is_some());
}

#[test]
fn catching_records_the_latest_detail() {
    let mut radar = Radar::new();
    let mut c = military("m");
    c.t = Some("C17".to_string());
    radar.local_poll_at(&vec![c], 600, 0);
    let mut store = Store::open(Vec::new());
    assert_eq!(catch_contact_at(&radar, &mut store, "m", 50), Ok(true));
    assert_eq!(catch_contact_at(&radar, &mut store, "m", 60), Ok(false));
    assert_eq!(catch_contact_at(&radar, &mut store, "z", 60), Ok(false));
    let rows = store.into_rows();
    assert_eq!(rows.len(), 1);
    assert_eq!((rows[0].first_seen_at, rows[0].caught_at), (50, Some(50)));
    assert_eq!((rows[0].last_seen_at, rows[0].seen_count), (60, 2));
    assert_eq!(rows[0].type_code.as_deref(), Some("C17"));
    let mut none = Store::unavailable();
    assert_eq!(
        catch_contact(&radar, &mut none, "m"),
        Err("sightings store unavailable".to_string())
    );
}

#[test]
fn polls_read_the_clock() {
    let mut radar = Radar::new();
    let ac = vec![mayday("e")];
    assert_eq!(radar.local_poll(&ac, 600).len(), 1);
    assert!(radar.global_poll(&ac, 600).is_empty());
    let mut store = Store::open(Vec::new());
    assert_eq!(catch_contact(&radar, &mut store, "e"), Ok(true));
    assert!(store.into_rows()[0].caught_at.unwrap() > 1_590_000_000);
}
