use adsb_radar::config::{Config, Feed};
use adsb_radar::double::Double;
use adsb_radar::feeds::{
    accept, fresh_global, fresh_local, http_error, local_pause_secs, query_radius,
    reported_altitude, squawk_pause_secs, view_radius, Aircraft, Altitude, FeedClient,
};

fn num(x: f64) -> Double {
    Double::from_bits(x.to_bits())
}

fn plane(hex: &str) -> Aircraft {
    Aircraft {
        hex: hex.to_string(),
        flight: None,
        r: None,
        t: None,
        desc: None,
        lat: None,
        lon: None,
        alt_baro: None,
        gs: None,
        track: None,
        baro_rate: None,
        squawk: None,
        emergency: None,
        category: None,
        db_flags: None,
        seen: None,
    }
}

fn four_feeds() -> Config {
    let mut cfg = Config::default();
    cfg.feeds = ["a", "b", "c", "d"]
        .iter()
        .map(|n| Feed {
            name: n.to_string(),
            point_url: format!("{n}:{{lat}},{{lon}},{{nm}}"),
            sqk_url: format!("{n}/{{sqk}}/{{sqk}}"),
        })
        .collect();
    cfg
}

#[test]
fn point_query_fills_the_template() {
    let f = FeedClient::new().point(&Config::default(), "41.8781", "-87.6298", "100");
    let f = f.unwrap();
    let a = f.next().unwrap();
    assert_eq!(a.feed, 0);
    assert_eq!(a.name, "adsb.lol");
    assert_eq!(a.url, "https://api.adsb.lol/v2/lat/41.8781/lon/-87.6298/dist/100");
}

#[test]
fn failover_goes_last_good_first_then_in_order() {
    let cfg = four_feeds();
    let mut client = FeedClient::new();
    let mut f = client.squawk(&cfg, "7700").unwrap();
    f.fail("http 500");
    f.fail("http 429");
    let a = f.next().unwrap();
    assert_eq!((a.feed, a.url.as_str()), (2, "c/7700/7700"));
    client.served(a);
    let mut f = client.point(&cfg, "1", "2", "3").unwrap();
    let mut order: Vec<String> = Vec::new();
    while let Some(a) = f.next() {
        order.push(a.url.clone());
        f.fail("timeout");
    }
    assert_eq!(order, ["c:1,2,3", "a:1,2,3", "b:1,2,3", "d:1,2,3"]);
    assert_eq!(f.into_error(), "d: timeout");
}

#[test]
fn no_feeds_is_an_error() {
    let mut cfg = Config::default();
    cfg.feeds.clear();
    let client = FeedClient::new();
    assert_eq!(client.point(&cfg, "1", "2", "3").err().as_deref(), Some("no feeds configured"));
    assert_eq!(client.squawk(&cfg, "7500").err().as_deref(), Some("no feeds configured"));
}

#[test]
fn a_shorter_list_of_feeds_still_has_a_start() {
    let mut cfg = four_feeds();
    let mut client = FeedClient::new();
    let mut f = client.squawk(&cfg, "1").unwrap();
    f.fail("x");
    f.fail("x");
    f.fail("x");
    client.served(f.next().unwrap());
    cfg.feeds.truncate(2);
    assert_eq!(client.squawk(&cfg, "1").unwrap().next().unwrap().name, "b");
}

#[test]
fn only_2xx_is_success() {
    assert_eq!(http_error(200), None);
    assert_eq!(http_error(299), None);
    assert_eq!(http_error(199).as_deref(), Some("http 199"));
    assert_eq!(http_error(404).as_deref(), Some("http 404"));
    assert_eq!(http_error(300).as_deref(), Some("http 300"));
}

#[test]
fn one_odd_record_does_not_sink_the_poll() {
    let r = accept("", Some(vec![Err("bad".to_string()), Ok(plane("a")), Ok(plane(""))])).unwrap();
    assert_eq!(r.ac.len(), 1);
    assert_eq!(r.ac[0].hex, "a");
}

#[test]
fn empty_sky_is_no_error() {
    assert!(accept("{\"ac\":[]}", Some(Vec::new())).unwrap().ac.is_empty());
}

#[test]
fn missing_list_is_an_error() {
    let long = "é".repeat(200);
    let e = accept(&long, None).unwrap_err();
    assert_eq!(e, format!("no ac field in response: {}", "é".repeat(160)));
    assert_eq!(accept("slow down", None).unwrap_err(), "no ac field in response: slow down");
}

#[test]
fn all_bad_records_are_an_error() {
    let records = vec![Ok(plane("")), Err("first".to_string()), Err("second".to_string())];
    assert_eq!(
        accept("", Some(records)).unwrap_err(),
        "all 3 records failed to parse; first error: first"
    );
    assert_eq!(
        accept("", Some(vec![Ok(plane(""))])).unwrap_err(),
        "all 1 records failed to parse; first error: "
    );
}

#[test]
fn stale_records_are_dropped() {
    assert!(fresh_local(&None) && fresh_global(&None));
    assert!(fresh_local(&Some(num(59.9))));
    assert!(!fresh_local(&Some(num(60.0))));
    assert!(fresh_global(&Some(num(120.0))));
    assert!(!fresh_global(&Some(num(120.1))));
}

#[test]
fn radius_follows_the_zoom_within_limits() {
    assert_eq!(query_radius(&num(100.0), &num(50.0)), num(100.0));
    assert_eq!(query_radius(&num(100.0), &num(162.5)), num(162.5));
    assert_eq!(query_radius(&num(100.0), &num(251.0)), num(250.0));
    assert_eq!(query_radius(&num(0.0), &num(0.0)), num(1.0));
    assert_eq!(view_radius(&num(-3.0)), num(0.0));
    assert_eq!(view_radius(&num(30.0)), num(30.0));
    assert_eq!(view_radius(&num(f64::NAN)), num(0.0));
}

#[test]
fn pauses_are_kept_in_range() {
    assert_eq!(local_pause_secs(5), 5);
    assert_eq!(local_pause_secs(0), 2);
    assert_eq!(local_pause_secs(1000), 300);
    assert_eq!(squawk_pause_secs(60, 3), 20);
    assert_eq!(squawk_pause_secs(60, 0), 60);
    assert_eq!(squawk_pause_secs(1, 3), 5);
    assert_eq!(squawk_pause_secs(9999, 2), 300);
    assert_eq!(squawk_pause_secs(60, 100), 5);
}

#[test]
fn request_rates_stay_under_one_per_second() {
    for local in [0, 2, 5, 400] {
        for sweep in [0, 15, 60, 9999] {
            for codes in [1, 3, 50] {
                let a = local_pause_secs(local) as f64;
                let b = squawk_pause_secs(sweep, codes) as f64;
                assert!(1.0 / a + 1.0 / b <= 0.7 + 1e-9);
            }
        }
    }
}

#[test]
fn altitudes_are_feet_ground_or_something_else() {
    let read = |n: Option<f64>, t: Option<&str>, s: &str| {
        reported_altitude(n.map(num), t, s.to_string())
    };
    match read(Some(2500.0), None, "2500") {
        Altitude::Feet(x) => assert_eq!(x, num(2500.0)),
        other => panic!("{other:?}"),
    }
    assert!(matches!(read(None, Some("ground"), "\"ground\""), Altitude::Ground));
    for (t, s) in [(Some("Ground"), "\"Ground\""), (Some(""), "\"\""), (None, "true")] {
        match read(None, t, s) {
            Altitude::Other(text) => assert_eq!(text, s),
            other => panic!("{other:?}"),
        }
    }
}
