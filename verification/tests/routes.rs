use adsb_radar::double::Double;
use adsb_radar::routes::{
    endpoints, plausible, read_reply, Lookup, Route, RouteCache, RouteMeasures, RouteReply,
};

const BODY: &str = "{\"response\":{\"flightroute\":{\"callsign\":\"UAL1381\",\
\"airline\":{\"name\":\"United Airlines\",\"icao\":\"UAL\"},\
\"origin\":{\"iata_code\":\"ORD\",\"icao_code\":\"KORD\",\"name\":\"O'Hare\",\
\"municipality\":\"Chicago\",\"country_iso_name\":\"US\",\"latitude\":41.9786,\"longitude\":-87.9048},\
\"destination\":{\"iata_code\":\"DEN\",\"latitude\":39.8617,\"longitude\":-104.673}}}}";

fn num(x: f64) -> Double {
    Double::from_bits(x.to_bits())
}

fn route() -> Route {
    match read_reply(200, BODY.as_bytes()) {
        RouteReply::Answer(Some(r)) => r,
        other => panic!("{other:?}"),
    }
}

fn measures(o: f64, d: f64, leg: f64, off: Option<f64>) -> RouteMeasures {
    RouteMeasures {
        to_origin_km: num(o),
        to_destination_km: num(d),
        via_km: num(o + d),
        corridor_km: num(leg + 300.0),
        off_heading_deg: off.map(num),
    }
}

#[test]
fn reply_is_condensed() {
    let r = route();
    assert_eq!(r.callsign.unwrap().text, "\"UAL1381\"");
    assert_eq!(r.airline.unwrap().text, "\"United Airlines\"");
    let o = r.origin.unwrap();
    assert_eq!(o.iata.unwrap().text, "\"ORD\"");
    assert_eq!(o.icao.unwrap().text, "\"KORD\"");
    assert_eq!(o.name.unwrap().text, "\"O'Hare\"");
    assert_eq!(o.city.unwrap().text, "\"Chicago\"");
    assert_eq!(o.country.unwrap().text, "\"US\"");
    assert_eq!(o.lat.unwrap().real, Some(num(41.9786)));
    let d = r.destination.unwrap();
    assert!(d.icao.is_none() && d.name.is_none() && d.city.is_none() && d.country.is_none());
    assert_eq!(d.lon.unwrap().real, Some(num(-104.673)));
}

#[test]
fn replies_that_say_nothing_are_unusable() {
    assert!(matches!(read_reply(404, b"whatever"), RouteReply::Unknown));
    assert!(matches!(read_reply(429, BODY.as_bytes()), RouteReply::Unusable));
    assert!(matches!(read_reply(503, b""), RouteReply::Unusable));
    assert!(matches!(read_reply(200, b"<html>"), RouteReply::Unusable));
    assert!(matches!(read_reply(201, b"{}"), RouteReply::Answer(None)));
    assert!(matches!(read_reply(200, b"{\"response\":\"unknown\"}"), RouteReply::Answer(None)));
    match read_reply(200, b"{\"response\":{\"flightroute\":null}}") {
        RouteReply::Answer(Some(r)) => assert!(r.origin.is_none() && r.callsign.is_none()),
        other => panic!("{other:?}"),
    }
}

#[test]
fn callsigns_are_looked_up_by_key() {
    let cache = RouteCache::new();
    match cache.lookup(" ual-1381\u{e9} ") {
        Lookup::Fetch { key, url } => {
            assert_eq!(key, "UAL1381");
            assert_eq!(url, "https://api.adsbdb.com/v0/callsign/UAL1381");
        }
        other => panic!("{other:?}"),
    }
    assert!(matches!(cache.lookup(" -- "), Lookup::Known(None)));
    assert!(matches!(cache.lookup_key(String::new()), Lookup::Known(None)));
}

#[test]
fn answers_are_remembered() {
    let mut cache = RouteCache::new();
    let r = cache.settle("UAL1381", read_reply(200, BODY.as_bytes()));
    assert_eq!(r.unwrap().callsign.unwrap().text, "\"UAL1381\"");
    match cache.lookup("ual1381") {
        Lookup::Known(Some(r)) => assert_eq!(r.airline.unwrap().text, "\"United Airlines\""),
        other => panic!("{other:?}"),
    }
    assert!(matches!(cache.lookup("UAL1382"), Lookup::Fetch { .. }));
}

#[test]
fn only_confirmed_unknowns_are_remembered() {
    let mut cache = RouteCache::new();
    assert!(cache.settle("A1", read_reply(500, b"")).is_none());
    assert!(cache.settle("A1", RouteReply::Unusable).is_none());
    assert!(matches!(cache.lookup("A1"), Lookup::Fetch { .. }));
    assert!(cache.settle("A1", read_reply(404, b"")).is_none());
    assert!(matches!(cache.lookup("A1"), Lookup::Known(None)));
    assert!(cache.settle("B2", read_reply(200, b"{}")).is_none());
    assert!(matches!(cache.lookup("B2"), Lookup::Known(None)));
}

#[test]
fn endpoints_need_both_positions() {
    let r = route();
    let ((olat, olon), (dlat, dlon)) = endpoints(&r).unwrap();
    assert_eq!((olat, olon), (num(41.9786), num(-87.9048)));
    assert_eq!((dlat, dlon), (num(39.8617), num(-104.673)));
    let mut r = route();
    r.destination = None;
    assert!(endpoints(&r).is_none());
    assert_eq!(plausible(&r, &measures(1.0, 1.0, 1.0, None)), None);
}

#[test]
fn near_an_end_every_route_is_plausible() {
    let r = route();
    assert_eq!(plausible(&r, &measures(150.0, 9000.0, 1.0, Some(180.0))), Some(true));
    assert_eq!(plausible(&r, &measures(9000.0, 149.0, 1.0, Some(180.0))), Some(true));
}

#[test]
fn far_out_the_corridor_and_the_heading_count() {
    let r = route();
    assert_eq!(plausible(&r, &measures(500.0, 900.0, 1100.0, None)), Some(true));
    assert_eq!(plausible(&r, &measures(500.0, 900.1, 1100.0, None)), Some(false));
    assert_eq!(plausible(&r, &measures(500.0, 800.0, 1100.0, Some(100.0))), Some(true));
    assert_eq!(plausible(&r, &measures(500.0, 800.0, 1100.0, Some(100.5))), Some(false));
    assert_eq!(plausible(&r, &measures(150.1, 9000.0, 1.0, None)), Some(false));
}
