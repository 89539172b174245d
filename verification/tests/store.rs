use adsb_radar::classify::UiAircraft;
use adsb_radar::double::Double;
use adsb_radar::feeds::Altitude;
use adsb_radar::rarity::{rarity_tiers, Rarity};
use adsb_radar::sighting::{alt_ft, notable_reason, Sighting};
use adsb_radar::store::Store;

fn num(x: f64) -> Double {
    Double::from_bits(x.to_bits())
}

fn contact(hex: &str) -> UiAircraft {
    UiAircraft {
        hex: hex.to_string(),
        flight: None,
        reg: None,
        t: None,
        desc: None,
        operator: None,
        lat: None,
        lon: None,
        alt_baro: None,
        gs: None,
        track: None,
        baro_rate: None,
        squawk: None,
        emergency: None,
        category: None,
        db_flags: 0,
        seen: None,
        dst_km: None,
        bearing: None,
        airport: None,
        airport_name: None,
        overhead: false,
        interesting: false,
        is_emergency: false,
        reasons: Vec::new(),
    }
}

fn of_type(hex: &str, t: &str) -> UiAircraft {
    let mut c = contact(hex);
    c.t = Some(t.to_string());
    c
}

fn empty() -> Store {
    Store::open(Vec::new())
}

#[test]
fn first_sighting_makes_a_row() {
    let mut s = empty();
    let mut c = of_type("abc123", "B738");
    c.flight = Some("".to_string());
    c.lat = Some(num(41.0));
    c.alt_baro = Some(Altitude::Ground);
    c.squawk = Some("1200".to_string());
    s.record_at(&c, 100);
    let rows = s.into_rows();
    assert_eq!(rows.len(), 1);
    let r = &rows[0];
    assert_eq!(r.hex, "abc123");
    assert_eq!((r.first_seen_at, r.last_seen_at, r.seen_count), (100, 100, 1));
    assert_eq!(r.type_code.as_deref(), Some("B738"));
    assert_eq!(r.callsign, None);
    assert_eq!(r.lat, Some(num(41.0)));
    assert_eq!(r.alt, Some(0));
    assert_eq!(r.squawk.as_deref(), Some("1200"));
    assert!(!r.notable);
    assert_eq!(r.caught_at, None);
}

#[test]
fn later_sightings_keep_what_they_omit() {
    let mut s = empty();
    let mut c = of_type("abc123", "B738");
    c.reg = Some("N1".to_string());
    c.flight = Some("UAL1".to_string());
    c.squawk = Some("7600".to_string());
    c.is_emergency = true;
    c.reasons = vec!["squawk:7600".to_string()];
    s.record_at(&c, 100);
    assert_eq!(s.catch_at("abc123", 150), Ok(true));
    let mut later = contact("abc123");
    later.t = Some("B739".to_string());
    s.record_at(&later, 200);
    let rows = s.into_rows();
    let r = &rows[0];
    assert_eq!(r.registration.as_deref(), Some("N1"));
    assert_eq!(r.type_code.as_deref(), Some("B739"));
    assert_eq!(r.callsign.as_deref(), Some("UAL1"));
    // The squawk is always the current one.
    assert_eq!(r.squawk, None);
    assert!(r.notable);
    assert_eq!(r.notable_reason.as_deref(), Some("SQK 7600"));
    assert_eq!((r.first_seen_at, r.last_seen_at, r.seen_count), (100, 200, 2));
    assert_eq!(r.caught_at, Some(150));
}

#[test]
fn contacts_without_an_address_are_not_logged() {
    let mut s = empty();
    s.record_at(&contact(""), 1);
    s.record_batch_at(&vec![contact(""), contact("a"), contact("a"), contact("b")], 2);
    let rows = s.into_rows();
    let hexes: Vec<&str> = rows.iter().map(|r| r.hex.as_str()).collect();
    assert_eq!(hexes, ["a", "b"]);
    assert_eq!(rows[0].seen_count, 2);
}

#[test]
fn recording_leaves_other_rows_alone() {
    let mut s = empty();
    s.record_batch_at(&vec![of_type("a", "A320"), of_type("b", "B738")], 1);
    s.record_at(&contact("b"), 9);
    let rows = s.into_rows();
    assert_eq!((rows[0].last_seen_at, rows[0].seen_count), (1, 1));
    assert_eq!((rows[1].last_seen_at, rows[1].seen_count), (9, 2));
}

#[test]
fn only_the_first_catch_counts() {
    let mut s = empty();
    s.record_at(&contact("a"), 1);
    assert_eq!(s.catch_at("b", 2), Ok(false));
    assert_eq!(s.catch_at("a", 3), Ok(true));
    assert_eq!(s.catch_at("a", 4), Ok(false));
    assert_eq!(s.caught_hexes(), ["a"]);
    assert_eq!(s.into_rows()[0].caught_at, Some(3));
}

#[test]
fn unavailable_store_does_nothing() {
    let mut s = Store::unavailable();
    s.record_at(&contact("a"), 1);
    s.record_batch_at(&vec![contact("a")], 1);
    assert_eq!(s.catch_at("a", 2), Err("sightings store unavailable".to_string()));
    assert!(s.caught_hexes().is_empty());
    assert!(s.dex().is_empty());
    assert!(s.rarity_map().get("B738").is_none());
    let m = s.milestones();
    assert_eq!((m.total_seen, m.total_caught, m.shinies), (0, 0, 0));
    assert!(m.achievements.is_empty());
    assert!(s.into_rows().is_empty());
}

#[test]
fn store_reads_the_wall_clock() {
    let mut s = empty();
    s.record(&contact("a"));
    s.record_batch(&vec![contact("b")]);
    assert_eq!(s.catch("a"), Ok(true));
    let rows = s.into_rows();
    // The middle of 2020.
    assert!(rows[0].first_seen_at > 1_590_000_000);
    assert!(rows[1].first_seen_at >= rows[0].first_seen_at);
    assert!(rows[0].caught_at.unwrap() >= rows[0].first_seen_at);
}

#[test]
fn opening_keeps_one_row_per_address() {
    let rows: Vec<Sighting> = vec![
        Sighting::first(&contact("a"), 1),
        Sighting::first(&contact("b"), 1),
        Sighting::first(&contact("a"), 7),
    ];
    let rows = Store::open(rows).into_rows();
    assert_eq!(rows.len(), 2);
    assert_eq!(rows[0].last_seen_at, 1);
}

#[test]
fn dex_lists_catches_newest_first() {
    let mut s = empty();
    let mut shiny = of_type("c", "A320");
    shiny.interesting = true;
    shiny.reasons = vec!["military".to_string()];
    s.record_batch_at(
        &vec![of_type("a", "B738"), of_type("b", "B738"), shiny, contact("d"), contact("e")],
        1,
    );
    assert_eq!(s.catch_at("a", 10), Ok(true));
    assert_eq!(s.catch_at("d", 30), Ok(true));
    assert_eq!(s.catch_at("c", 20), Ok(true));
    let dex = s.dex();
    let hexes: Vec<&str> = dex.iter().map(|d| d.hex.as_str()).collect();
    assert_eq!(hexes, ["d", "c", "a"]);
    // No type, no tier; a notable catch is always legendary; B738 is the busiest type.
    assert_eq!(dex[0].rarity, None);
    assert_eq!(dex[1].rarity.as_deref(), Some("legendary"));
    assert!(dex[1].notable);
    assert_eq!(dex[2].rarity.as_deref(), Some("common"));
    assert_eq!((dex[2].caught_at, dex[2].first_seen_at, dex[2].seen_count), (10, 1, 1));
    assert_eq!(s.rarity_map().get("A320"), Some(&Rarity::Legendary));
}

#[test]
fn tiers_follow_the_running_share() {
    let counts: Vec<(String, i64)> = [("rare", 15), ("uncommon", 30), ("legendary", 5), ("common", 50)]
        .iter()
        .map(|(t, n)| (t.to_string(), *n))
        .collect();
    let tiers = rarity_tiers(&counts);
    for (t, _) in &counts {
        assert_eq!(tiers.get(t).unwrap().label(), t);
    }
    assert!(tiers.get("none").is_none());
    assert_eq!(rarity_tiers(&Vec::new()).size(), 0);
    assert_eq!(rarity_tiers(&vec![("x".to_string(), 0)]).size(), 0);
    // A single type is the last in rank.
    assert_eq!(rarity_tiers(&vec![("x".to_string(), 4)]).get("x"), Some(&Rarity::Legendary));
}

#[test]
fn busier_types_are_not_rarer() {
    let counts: Vec<(String, i64)> = (1..40).map(|n| (format!("T{n}"), n)).collect();
    let tiers = rarity_tiers(&counts);
    let mut last = Rarity::Legendary;
    for (t, _) in &counts {
        let now = *tiers.get(t).unwrap();
        assert!(now as u8 <= last as u8);
        last = now;
    }
    assert_eq!(last, Rarity::Common);
}

#[test]
fn notable_reason_is_the_most_salient() {
    let mut c = contact("a");
    assert_eq!(notable_reason(&c), None);
    c.reasons = vec!["overhead".to_string(), "interesting".to_string(), "military".to_string()];
    assert_eq!(notable_reason(&c), None);
    c.interesting = true;
    assert_eq!(notable_reason(&c).as_deref(), Some("interesting"));
    c.reasons = vec!["balloon".to_string()];
    assert_eq!(notable_reason(&c).as_deref(), Some("balloon"));
    c.reasons = vec!["watchlist:C17".to_string()];
    assert_eq!(notable_reason(&c).as_deref(), Some("watch C17"));
    c.reasons = vec!["military".to_string(), "emergency:straße".to_string()];
    assert_eq!(notable_reason(&c).as_deref(), Some("military"));
    c.is_emergency = true;
    assert_eq!(notable_reason(&c).as_deref(), Some("STRASSE"));
    c.reasons = vec!["overhead".to_string()];
    assert_eq!(notable_reason(&c).as_deref(), Some("EMERGENCY"));
}

#[test]
fn altitudes_are_whole_feet() {
    let mut c = contact("a");
    assert_eq!(alt_ft(&c), None);
    c.alt_baro = Some(Altitude::Other("true".to_string()));
    assert_eq!(alt_ft(&c), None);
    c.alt_baro = Some(Altitude::Feet(num(1234.9)));
    assert_eq!(alt_ft(&c), Some(1234));
    c.alt_baro = Some(Altitude::Feet(num(-75.5)));
    assert_eq!(alt_ft(&c), Some(-75));
    c.alt_baro = Some(Altitude::Feet(num(1e300)));
    assert_eq!(alt_ft(&c), Some(i64::MAX));
}

#[test]
fn milestones_count_the_collection() {
    let mut s = empty();
    for i in 0..12 {
        let mut c = of_type(&format!("h{i}"), &format!("T{}", i % 3));
        c.operator = Some(format!("op{}", i % 2));
        if i == 5 {
            c.squawk = Some("7600".to_string());
            c.is_emergency = true;
            c.reasons = vec!["squawk:7600".to_string()];
        }
        if i == 7 {
            c.interesting = true;
            c.reasons = vec!["military".to_string()];
        }
        s.record_at(&c, 1);
        if i < 11 {
            assert_eq!(s.catch_at(&format!("h{i}"), 1000 - 10 * i), Ok(true));
        }
    }
    let m = s.milestones();
    assert_eq!((m.total_seen, m.total_caught), (12, 11));
    assert_eq!((m.distinct_types, m.distinct_operators, m.shinies), (3, 2, 2));
    let keys: Vec<&str> = m.achievements.iter().map(|a| a.key.as_str()).collect();
    assert_eq!(
        keys,
        [
            "first", "caught10", "caught25", "caught50", "caught100", "types10", "types25", "ops5",
            "ops10", "shiny5", "military", "shiny", "emergency", "nordo", "hijack"
        ]
    );
    let of = |k: &str| m.achievements.iter().find(|a| a.key == k).unwrap();
    assert_eq!((of("first").at, of("first").note.as_str()), (Some(900), "unlocked"));
    assert_eq!((of("caught10").at, of("caught10").title.as_str()), (Some(990), "Getting Started"));
    assert!(!of("caught25").unlocked);
    assert_eq!((of("caught25").at, of("caught25").note.as_str()), (None, "11 / 25"));
    assert_eq!(of("types10").note, "3 / 10");
    assert_eq!((of("military").at, of("military").unlocked), (Some(930), true));
    assert_eq!(of("shiny").at, Some(930));
    assert_eq!(of("emergency").at, Some(950));
    assert_eq!((of("nordo").at, of("nordo").note.as_str()), (Some(950), "Catch a NORDO — squawk 7600"));
    assert_eq!((of("hijack").at, of("hijack").unlocked), (None, false));
}

#[test]
fn emergencies_are_caught_as_legendary() {
    let mut s = empty();
    s.record_batch_at(&vec![of_type("a", "B738"), of_type("b", "B738")], 1);
    let mut c = of_type("a", "B738");
    c.is_emergency = true;
    c.reasons = vec!["squawk:7600".to_string()];
    s.record_at(&c, 2);
    s.record_at(&of_type("a", "B738"), 3);
    assert_eq!(s.catch_at("a", 4), Ok(true));
    let dex = s.dex();
    assert_eq!(dex[0].rarity.as_deref(), Some("legendary"));
    assert_eq!(dex[0].notable_reason.as_deref(), Some("SQK 7600"));
}

#[test]
fn figures_only_grow() {
    let mut s = empty();
    let mut last = (0, 0, 0);
    for i in 0..9 {
        let mut c = contact(&format!("h{}", i % 4));
        c.interesting = i == 2;
        s.record_at(&c, i);
        assert!(s.catch_at(&format!("h{}", i % 3), i).is_ok());
        let m = s.milestones();
        let now = (m.total_seen, m.total_caught, m.shinies);
        assert!(now.0 >= last.0 && now.1 >= last.1 && now.2 >= last.2);
        last = now;
    }
    assert_eq!(last, (4, 3, 1));
}

#[test]
fn tiers_split_the_traffic_as_they_say() {
    let counts: Vec<(String, i64)> =
        [1, 400, 3, 90, 17, 17, 2, 60, 250, 0].iter().enumerate().map(|(i, n)| (format!("T{i}"), *n)).collect();
    let total: i64 = counts.iter().map(|c| c.1).sum();
    let tiers = rarity_tiers(&counts);
    let share = |top: Rarity| -> i64 {
        counts.iter().filter(|c| *tiers.get(&c.0).unwrap() as u8 <= top as u8).map(|c| c.1).sum()
    };
    assert!(100 * share(Rarity::Common) >= 50 * total);
    assert!(100 * share(Rarity::Uncommon) >= 80 * total);
    assert!(100 * share(Rarity::Rare) >= 95 * total);
    // 400 of 840 is not yet half, so that the next type is common too.
    assert_eq!(share(Rarity::Common), 650);
    assert_eq!(share(Rarity::Uncommon), 740);
    assert_eq!(share(Rarity::Rare), 800);
    assert_eq!(share(Rarity::Legendary), total);
    assert_eq!(tiers.get("T1").unwrap().label(), "common");
    assert_eq!(tiers.get("T9").unwrap().label(), "legendary");
}

#[test]
fn seen_often_is_common_and_seen_once_is_legendary() {
    let counts = vec![("B738".to_string(), 400), ("V22".to_string(), 1)];
    let tiers = rarity_tiers(&counts);
    assert_eq!(tiers.get("B738").unwrap().label(), "common");
    assert_eq!(tiers.get("V22").unwrap().label(), "legendary");
    let counts = vec![("V22".to_string(), 1), ("B738".to_string(), 1)];
    let tiers = rarity_tiers(&counts);
    assert_eq!(tiers.get("V22").unwrap().label(), "common");
    assert_eq!(tiers.get("B738").unwrap().label(), "legendary");
}

#[test]
fn rarity_is_cut_short_by_the_last_type() {
    let counts: Vec<(String, i64)> =
        [40, 30, 30].iter().enumerate().map(|(i, n)| (format!("T{i}"), *n)).collect();
    let tiers = rarity_tiers(&counts);
    assert_eq!(tiers.get("T0"), Some(&Rarity::Common));
    assert_eq!(tiers.get("T1"), Some(&Rarity::Common));
    assert_eq!(tiers.get("T2"), Some(&Rarity::Legendary));
}

fn award(s: &Store, key: &str) -> (bool, Option<i64>) {
    let m = s.milestones();
    let a = m.achievements.iter().find(|a| a.key == key).unwrap();
    (a.unlocked, a.at)
}

#[test]
fn type_counts_are_dated_by_the_catch_that_reached_them() {
    let mut s = empty();
    // Logged in the opposite order of the catches.
    for i in (1..=19).rev() {
        let t = if i <= 10 { "B738".to_string() } else { format!("T{i}") };
        let hex = format!("h{i}");
        s.record_at(&of_type(&hex, &t), 1);
        assert_eq!(s.catch_at(&hex, i), Ok(true));
        if i == 2 {
            assert_eq!(award(&s, "types10"), (true, Some(19)));
        }
        if i == 12 {
            assert_eq!(award(&s, "types10"), (false, None));
        }
    }
    assert_eq!(award(&s, "types10"), (true, Some(19)));
    assert_eq!(award(&s, "first"), (true, Some(1)));
    assert_eq!(award(&s, "caught10"), (true, Some(10)));
}

#[test]
fn operator_and_shiny_counts_are_dated_by_the_catch_that_reached_them() {
    let mut s = empty();
    for i in 1..=20 {
        let mut c = contact(&format!("h{i}"));
        // A new operator with every third catch, and a notable catch with every second.
        c.operator = if i % 3 == 0 { Some(format!("op{i}")) } else { Some("same".to_string()) };
        c.interesting = i % 2 == 0;
        s.record_at(&c, 1);
        assert_eq!(s.catch_at(&format!("h{i}"), 100 + i), Ok(true));
    }
    assert_eq!(award(&s, "ops5"), (true, Some(112)));
    assert_eq!(award(&s, "ops10"), (false, None));
    assert_eq!(award(&s, "shiny5"), (true, Some(110)));
}

#[test]
fn positions_that_are_no_number_count_as_none() {
    let mut s = empty();
    let mut c = contact("a");
    c.lat = Some(num(f64::NAN));
    c.lon = Some(num(-f64::NAN));
    s.record_at(&c, 1);
    c.lat = Some(num(41.5));
    c.lon = Some(num(f64::INFINITY));
    s.record_batch_at(&vec![contact("b"), c], 2);
    let mut c = contact("a");
    c.lat = Some(num(f64::NAN));
    let mut only = empty();
    only.record_at(&c, 3);
    s.record_at(&c, 3);
    let rows = s.into_rows();
    assert_eq!((rows[0].lat, rows[0].lon), (Some(num(41.5)), Some(num(f64::INFINITY))));
    assert_eq!(only.into_rows()[0].lat, None);
}
