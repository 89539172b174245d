use adsb_radar::clock::{now_secs, stamp, Clock};
use adsb_radar::config::{strip_bom, Config};
use adsb_radar::double::Double;
use adsb_radar::globe::globe_url;
use adsb_radar::number::{natural_decimal, parse_i64, to_decimal};
use adsb_radar::order::rank;
use adsb_radar::table::Table;
use adsb_radar::text::{
    dedup, keep_alnum, replace_all, strip_prefix, strip_suffix, to_ascii_lower, to_ascii_upper,
    trim,
};

fn num(x: f64) -> Double {
    Double::from_bits(x.to_bits())
}

#[test]
fn doubles_compare_as_floats_do() {
    let xs = [
        f64::NEG_INFINITY, f64::MIN, -1.5, -1.0, -f64::MIN_POSITIVE, -5e-324, -0.0, 0.0, 5e-324,
        0.1, 1.0, 1.5, 1e300, f64::MAX, f64::INFINITY, f64::NAN,
    ];
    for a in xs {
        assert_eq!(num(a).no_number(), a.is_nan());
        for b in xs {
            assert_eq!(num(a).lt(&num(b)), a < b);
            assert_eq!(num(a).le(&num(b)), a <= b);
        }
    }
}

#[test]
fn doubles_truncate_as_casts_do() {
    for x in [
        0.0, -0.0, 0.99, -0.99, 1.0, 2.5, -2.5, 35000.0, 4503599627370497.5, 1e15, -1e15,
        9.2e18, 9.3e18, -9.223372036854775808e18, -1e19, 1e308, f64::INFINITY,
        f64::NEG_INFINITY, f64::NAN, 5e-324,
    ] {
        assert_eq!(num(x).to_whole(), x as i64);
    }
}

#[test]
fn defaults_are_the_documented_ones() {
    let c = Config::default();
    assert_eq!((c.home_lat, c.home_lon), (num(41.8781), num(-87.6298)));
    assert_eq!((c.overhead_radius_km, c.overhead_ceiling_ft), (num(4.0), num(6000.0)));
    assert_eq!(c.regional_radius_nm, num(100.0));
    assert_eq!(
        c.watchlist,
        ["K35R", "R135", "E3TF", "E3CF", "E6", "C130", "C17", "B52", "U2", "VC25", "A10"]
    );
    assert_eq!((c.poll_local_secs, c.poll_sqk_secs, c.alert_cooldown_secs), (5, 60, 600));
    assert_eq!(c.default_zoom_km, num(30.0));
    let zooms: Vec<Double> =
        [10.0, 20.0, 30.0, 50.0, 100.0, 185.0, 300.0, 463.0].iter().map(|x| num(*x)).collect();
    assert_eq!(c.zoom_steps_km, zooms);
    assert_eq!(c.emergency_squawks, ["7500", "7600", "7700"]);
    assert!(!c.toast_sound && !c.wx_enabled && !c.alt_filter_on);
    assert_eq!((c.alt_floor_ft, c.alt_ceiling_ft), (num(0.0), num(50000.0)));
    assert_eq!(c.desktop_mode, "auto");
    assert_eq!(c.feeds.len(), 3);
    assert_eq!(c.feeds[2].sqk_url, "https://api.airplanes.live/v2/squawk/{sqk}");
}

#[test]
fn byte_order_marks_are_dropped() {
    assert_eq!(strip_bom("\u{feff}\u{feff}{}"), "{}");
    assert_eq!(strip_bom("{}\u{feff}"), "{}\u{feff}");
    assert_eq!(strip_bom(""), "");
}

#[test]
fn globe_links_need_an_address() {
    assert_eq!(
        globe_url(" ~AbC-123 ").as_deref(),
        Ok("https://globe.adsbexchange.com/?icao=abc123")
    );
    assert_eq!(globe_url("é~"), Err("no ICAO hex to track".to_string()));
}

#[test]
fn stamps_stay_in_range() {
    assert_eq!(stamp(None), 0);
    assert_eq!(stamp(Some(7)), 7);
    assert_eq!(stamp(Some(u64::MAX)), i64::MAX);
    assert!(now_secs() > 1_590_000_000);
    let mut c = Clock::start();
    let a = c.now();
    let b = c.now();
    assert!(a <= b);
    // It moves on, and in nanoseconds: this loop takes less than a minute.
    let mut later = b;
    while later == a {
        later = c.now();
    }
    assert!(a < later && later < 60_000_000_000);
}

#[test]
fn numbers_are_written_and_read() {
    for n in [0, 1, -1, 10, -905, i64::MAX, i64::MIN] {
        assert_eq!(to_decimal(n), n.to_string());
        assert_eq!(parse_i64(&n.to_string()), Some(n));
    }
    assert_eq!(natural_decimal(u64::MAX), u64::MAX.to_string());
    for s in ["", "+", "-", "1a", " 1", "--1", "9223372036854775808", "-9223372036854775809"] {
        assert_eq!(parse_i64(s), None);
        assert!(s.parse::<i64>().is_err());
    }
    for s in ["+5", "-0", "007", "-9223372036854775808"] {
        assert_eq!(parse_i64(s), s.parse::<i64>().ok());
    }
}

#[test]
fn ranking_is_stable() {
    assert_eq!(rank(&vec![3, 1, 2, 1, 3]), [1, 3, 2, 0, 4]);
    assert!(rank(&Vec::new()).is_empty());
}

#[test]
fn tables_hold_one_value_per_key() {
    let mut t: Table<u32> = Table::new();
    t.set("a", 1);
    t.set("b", 2);
    t.set("a", 3);
    assert_eq!(t.size(), 2);
    assert_eq!(t.get("a"), Some(&3));
    assert_eq!(t.get("c"), None);
    assert_eq!(t.row(1).0, "b");
}

#[test]
fn texts_are_handled_as_std_does() {
    for s in ["", " a ", "\u{a0}x\u{3000}", "\t\r\n", "a b", "\u{200b}a\u{85}"] {
        assert_eq!(trim(s), s.trim());
        assert_eq!(to_ascii_upper(s), s.to_ascii_uppercase());
    }
    assert_eq!(to_ascii_lower("ABCé"), "abcé");
    assert_eq!(keep_alnum("a-1 é B"), "a1B");
    for (s, p, t) in [("aaa", "aa", "b"), ("{x}{x}", "{x}", "{x}{x}"), ("abc", "z", ""), ("", "a", "b")] {
        assert_eq!(replace_all(s, p, t), s.replace(p, t));
    }
    assert_eq!(strip_prefix("dex-1", "dex-").as_deref(), Some("1"));
    assert_eq!(strip_prefix("de", "dex-"), None);
    assert_eq!(strip_suffix("1.db", ".db").as_deref(), Some("1"));
    assert_eq!(strip_suffix("db", ".db"), None);
    let v: Vec<String> = ["b", "a", "b", "c", "a"].iter().map(|s| s.to_string()).collect();
    assert_eq!(dedup(&v), ["b", "a", "c"]);
}
