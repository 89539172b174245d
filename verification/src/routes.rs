//! Filed routes by callsign: lookup, caching, and a check against the actual position.
use vstd::arithmetic::power2::pow2;
use vstd::prelude::*;

use crate::double::{lemma_whole_number, number, Double};
use crate::feeds::is_success;
use crate::table::Table;
use crate::text::{
    alnum_only, ascii_text, ascii_upper, ascii_upper_char, case_mappings_touch_letters_only,
    is_ascii_alnum, is_space, join, keep_alnum, only_letters_and_digits_are_kept, to_upper, trim,
    trimmed, trimming_takes_white_space_only, upper,
};

verus! {

/// A JSON value, carried as its notation and, for a number, its value.
#[derive(Debug)]
pub struct JsonValue {
    pub text: String,
    pub real: Option<Double>,
}

/// A JSON value, over character sequences.
pub ghost struct JsonView {
    pub text: Seq<char>,
    pub real: Option<Double>,
}

impl View for JsonValue {
    type V = JsonView;

    open spec fn view(&self) -> JsonView {
        JsonView { text: self.text@, real: self.real }
    }
}

/// The view of an optional JSON value.
pub open spec fn json_view(v: Option<JsonValue>) -> Option<JsonView> {
    match v {
        Some(v) => Some(v@),
        None => None,
    }
}

/// The value that a JSON Pointer addresses in a JSON document, or `None` where the document is
/// no JSON or has no such value.
pub uninterp spec fn json_at(document: Seq<u8>, pointer: Seq<char>) -> Option<JsonView>;

/// `serde_json::Value::pointer`, on the document that `serde_json::from_slice` reads. The result
/// is a function of the document and the pointer; what it is, is not described further.
#[verifier::external_body]
fn json_member(document: &[u8], pointer: &str) -> (r: Option<JsonValue>)
    ensures
        json_view(r) == json_at(document@, pointer@),
{
    let value: serde_json::Value = serde_json::from_slice(document).ok()?;
    value.pointer(pointer).map(
        |v| JsonValue { text: v.to_string(), real: v.as_f64().map(|x| Double { bits: x.to_bits() }) },
    )
}

/// One end of a route. A field that the reply does not have is `None`.
#[derive(Debug)]
pub struct RouteAirport {
    pub iata: Option<JsonValue>,
    pub icao: Option<JsonValue>,
    pub name: Option<JsonValue>,
    pub city: Option<JsonValue>,
    pub country: Option<JsonValue>,
    pub lat: Option<JsonValue>,
    pub lon: Option<JsonValue>,
}

/// The route that is filed under a callsign.
#[derive(Debug)]
pub struct Route {
    pub callsign: Option<JsonValue>,
    pub airline: Option<JsonValue>,
    pub origin: Option<RouteAirport>,
    pub destination: Option<RouteAirport>,
}

/// One end of a route, over character sequences.
pub ghost struct EndView {
    pub iata: Option<JsonView>,
    pub icao: Option<JsonView>,
    pub name: Option<JsonView>,
    pub city: Option<JsonView>,
    pub country: Option<JsonView>,
    pub lat: Option<JsonView>,
    pub lon: Option<JsonView>,
}

/// A route, over character sequences.
pub ghost struct RouteView {
    pub callsign: Option<JsonView>,
    pub airline: Option<JsonView>,
    pub origin: Option<EndView>,
    pub destination: Option<EndView>,
}

impl View for RouteAirport {
    type V = EndView;

    open spec fn view(&self) -> EndView {
        EndView {
            iata: json_view(self.iata),
            icao: json_view(self.icao),
            name: json_view(self.name),
            city: json_view(self.city),
            country: json_view(self.country),
            lat: json_view(self.lat),
            lon: json_view(self.lon),
        }
    }
}

/// The view of one optional end of a route.
pub open spec fn end_view(a: Option<RouteAirport>) -> Option<EndView> {
    match a {
        Some(a) => Some(a@),
        None => None,
    }
}

impl View for Route {
    type V = RouteView;

    open spec fn view(&self) -> RouteView {
        RouteView {
            callsign: json_view(self.callsign),
            airline: json_view(self.airline),
            origin: end_view(self.origin),
            destination: end_view(self.destination),
        }
    }
}

/// The view of an optional route.
pub open spec fn route_view(r: Option<Route>) -> Option<RouteView> {
    match r {
        Some(r) => Some(r@),
        None => None,
    }
}

fn copy_value(v: &Option<JsonValue>) -> (r: Option<JsonValue>)
    ensures
        r == *v,
{
    match v {
        Some(v) => Some(JsonValue { text: v.text.clone(), real: v.real }),
        None => None,
    }
}

fn copy_end(a: &Option<RouteAirport>) -> (r: Option<RouteAirport>)
    ensures
        r == *a,
{
    match a {
        Some(a) => Some(
            RouteAirport {
                iata: copy_value(&a.iata),
                icao: copy_value(&a.icao),
                name: copy_value(&a.name),
                city: copy_value(&a.city),
                country: copy_value(&a.country),
                lat: copy_value(&a.lat),
                lon: copy_value(&a.lon),
            },
        ),
        None => None,
    }
}

/// A copy of an optional route.
pub fn copy_route(route: &Option<Route>) -> (r: Option<Route>)
    ensures
        r == *route,
{
    match route {
        Some(x) => Some(
            Route {
                callsign: copy_value(&x.callsign),
                airline: copy_value(&x.airline),
                origin: copy_end(&x.origin),
                destination: copy_end(&x.destination),
            },
        ),
        None => None,
    }
}

/// The key under which a callsign is looked up: its ASCII letters and digits, in upper case.
pub open spec fn route_key(callsign: Seq<char>) -> Seq<char> {
    alnum_only(upper(trimmed(callsign)))
}

/// The end of the route that stands at a pointer of a reply.
pub open spec fn end_at(document: Seq<u8>, base: Seq<char>) -> Option<EndView> {
    if json_at(document, base) is Some {
        Some(
            EndView {
                iata: json_at(document, base + "/iata_code"@),
                icao: json_at(document, base + "/icao_code"@),
                name: json_at(document, base + "/name"@),
                city: json_at(document, base + "/municipality"@),
                country: json_at(document, base + "/country_iso_name"@),
                lat: json_at(document, base + "/latitude"@),
                lon: json_at(document, base + "/longitude"@),
            },
        )
    } else {
        None
    }
}

/// The route that a reply reports.
pub open spec fn route_at(document: Seq<u8>) -> Option<RouteView> {
    if json_at(document, "/response/flightroute"@) is Some {
        Some(
            RouteView {
                callsign: json_at(document, "/response/flightroute/callsign"@),
                airline: json_at(document, "/response/flightroute/airline/name"@),
                origin: end_at(document, "/response/flightroute/origin"@),
                destination: end_at(document, "/response/flightroute/destination"@),
            },
        )
    } else {
        None
    }
}

/// How a route request ended.
#[derive(Debug)]
pub enum RouteReply {
    /// No answer, an answer that says nothing about the callsign, or one that is not readable.
    Unusable,
    /// The callsign is not known.
    Unknown,
    /// A readable answer, with the route that it reports.
    Answer(Option<Route>),
}

/// How a route request ended, over character sequences.
pub ghost enum ReplyView {
    Unusable,
    Unknown,
    Answer(Option<RouteView>),
}

impl View for RouteReply {
    type V = ReplyView;

    open spec fn view(&self) -> ReplyView {
        match *self {
            RouteReply::Unusable => ReplyView::Unusable,
            RouteReply::Unknown => ReplyView::Unknown,
            RouteReply::Answer(r) => ReplyView::Answer(route_view(r)),
        }
    }
}

/// How a route request ended that was answered with a status and a body.
pub open spec fn reply_for(status: u16, body: Seq<u8>) -> ReplyView {
    if status == 404 {
        ReplyView::Unknown
    } else if !is_success(status) || json_at(body, ""@) is None {
        ReplyView::Unusable
    } else {
        ReplyView::Answer(route_at(body))
    }
}

fn read_end(body: &[u8], base: &str) -> (r: Option<RouteAirport>)
    ensures
        end_view(r) == end_at(body@, base@),
{
    if json_member(body, base).is_none() {
        return None;
    }
    Some(
        RouteAirport {
            iata: json_member(body, join(base, "/iata_code").as_str()),
            icao: json_member(body, join(base, "/icao_code").as_str()),
            name: json_member(body, join(base, "/name").as_str()),
            city: json_member(body, join(base, "/municipality").as_str()),
            country: json_member(body, join(base, "/country_iso_name").as_str()),
            lat: json_member(body, join(base, "/latitude").as_str()),
            lon: json_member(body, join(base, "/longitude").as_str()),
        },
    )
}

/// How a route request ended that was answered with a status and a body. The body matters only
/// for a success.
pub fn read_reply(status: u16, body: &[u8]) -> (r: RouteReply)
    ensures
        r@ == reply_for(status, body@),
{
    if status == 404 {
        return RouteReply::Unknown;
    }
    if !(200 <= status && status < 300) {
        return RouteReply::Unusable;
    }
    if json_member(body, "").is_none() {
        return RouteReply::Unusable;
    }
    if json_member(body, "/response/flightroute").is_none() {
        return RouteReply::Answer(None);
    }
    RouteReply::Answer(
        Some(
            Route {
                callsign: json_member(body, "/response/flightroute/callsign"),
                airline: json_member(body, "/response/flightroute/airline/name"),
                origin: read_end(body, "/response/flightroute/origin"),
                destination: read_end(body, "/response/flightroute/destination"),
            },
        ),
    )
}

/// What to do about a callsign.
#[derive(Debug)]
pub enum Lookup {
    /// The answer is at hand.
    Known(Option<Route>),
    /// The route has to be requested.
    Fetch { key: String, url: String },
}

/// The answer that is at hand for a key: a key with nothing in it has no route, and a key that
/// is remembered has what is remembered of it.
pub open spec fn known(
    routes: Map<Seq<char>, Option<Route>>,
    key: Seq<char>,
) -> Option<Option<Route>> {
    if key.len() == 0 {
        Some(None)
    } else if routes.contains_key(key) {
        Some(routes[key])
    } else {
        None
    }
}

/// What is remembered after a request for `key` ended: a readable answer and a confirmed unknown
/// are remembered, a failure is not.
pub open spec fn settled(
    routes: Map<Seq<char>, Option<Route>>,
    key: Seq<char>,
    reply: RouteReply,
) -> Map<Seq<char>, Option<Route>> {
    match reply {
        RouteReply::Unusable => routes,
        RouteReply::Unknown => routes.insert(key, None),
        RouteReply::Answer(route) => routes.insert(key, route),
    }
}

/// The route that a request ended with.
pub open spec fn outcome(reply: RouteReply) -> Option<Route> {
    match reply {
        RouteReply::Answer(route) => route,
        _ => None,
    }
}

/// The address under which the route for a key is requested.
pub open spec fn route_url(key: Seq<char>) -> Seq<char> {
    "https://api.adsbdb.com/v0/callsign/"@ + key
}

/// Routes by callsign. Found routes and confirmed unknowns are remembered, failures are not, so
/// that a blip can be retried.
pub struct RouteCache {
    map: Table<Option<Route>>,
}

impl RouteCache {
    /// The cache is well formed.
    pub closed spec fn wf(&self) -> bool {
        self.map.wf()
    }

    /// The routes that are remembered; `None` for a callsign that is known to have none.
    pub closed spec fn view(&self) -> Map<Seq<char>, Option<Route>> {
        self.map@
    }

    /// An empty cache.
    pub fn new() -> (r: RouteCache)
        ensures
            r.wf(),
            r@ == Map::<Seq<char>, Option<Route>>::empty(),
    {
        RouteCache { map: Table::new() }
    }

    /// What to do about a callsign: answer from memory, or request the route.
    pub fn lookup(&self, callsign: &str) -> (r: Lookup)
        requires
            self.wf(),
        ensures
            (match r {
                Lookup::Known(route) => known(self@, route_key(callsign@)) == Some(route),
                Lookup::Fetch { key, url } => known(self@, route_key(callsign@)) is None && key@
                    == route_key(callsign@) && url@ == route_url(key@),
            }),
    {
        let up: String = to_upper(trim(callsign).as_str());
        self.lookup_key(keep_alnum(up.as_str()))
    }

    /// What to do about the callsign with this key.
    pub fn lookup_key(&self, key: String) -> (r: Lookup)
        requires
            self.wf(),
        ensures
            (match r {
                Lookup::Known(route) => known(self@, key@) == Some(route),
                Lookup::Fetch { key: k, url } => known(self@, key@) is None && k == key && url@
                    == route_url(key@),
            }),
    {
        if key.as_str().is_empty() {
            return Lookup::Known(None);
        }
        match self.map.get(key.as_str()) {
            Some(route) => Lookup::Known(copy_route(route)),
            None => {
                let url: String = join("https://api.adsbdb.com/v0/callsign/", key.as_str());
                Lookup::Fetch { key, url }
            },
        }
    }

    /// Takes note of how a request for `key` ended, and returns the route.
    pub fn settle(&mut self, key: &str, reply: RouteReply) -> (r: Option<Route>)
        requires
            old(self).wf(),
        ensures
            final(self).wf(),
            final(self)@ == settled(old(self)@, key@, reply),
            r == outcome(reply),
    {
        match reply {
            RouteReply::Unusable => None,
            RouteReply::Unknown => {
                self.map.set(key, None);
                None
            },
            RouteReply::Answer(route) => {
                let answer: Option<Route> = copy_route(&route);
                self.map.set(key, route);
                answer
            },
        }
    }
}

/// A callsign is requested once: after a request for it ended with a readable answer or a
/// confirmed unknown, the same callsign is answered from memory, with the same route.
pub proof fn settled_callsigns_need_no_request(
    routes: Map<Seq<char>, Option<Route>>,
    callsign: Seq<char>,
    reply: RouteReply,
)
    requires
        known(routes, route_key(callsign)) is None,
        !(reply is Unusable),
    ensures
        known(settled(routes, route_key(callsign), reply), route_key(callsign)) == Some(
            outcome(reply),
        ),
{
}

/// Failures are not remembered: a status that is neither a success nor the confirmation that the
/// callsign is unknown leaves every answer as it was, so that the request can be tried again.
pub proof fn failures_are_not_remembered(
    routes: Map<Seq<char>, Option<Route>>,
    key: Seq<char>,
    status: u16,
    body: Seq<u8>,
    reply: RouteReply,
)
    requires
        reply@ == reply_for(status, body),
        status != 404,
        !is_success(status),
    ensures
        settled(routes, key, reply) == routes,
        outcome(reply) is None,
{
}

/// A callsign without a route is remembered as such only where that was confirmed: by the status
/// that says so, or by a readable answer that reports no route.
pub proof fn unknowns_are_confirmed(
    routes: Map<Seq<char>, Option<Route>>,
    key: Seq<char>,
    status: u16,
    body: Seq<u8>,
    reply: RouteReply,
)
    requires
        reply@ == reply_for(status, body),
        key.len() > 0,
        known(routes, key) is None,
        known(settled(routes, key, reply), key) == Some(None::<Route>),
    ensures
        status == 404 || (is_success(status) && json_at(body, ""@) is Some && route_at(body) is None),
{
}

/// A request for one callsign leaves the answers for others alone.
pub proof fn routes_are_independent(
    routes: Map<Seq<char>, Option<Route>>,
    key: Seq<char>,
    reply: RouteReply,
    other: Seq<char>,
)
    requires
        other != key,
    ensures
        known(settled(routes, key, reply), other) == known(routes, other),
{
}

/// 150.
pub const NEAR_KM: u64 = 0x4062_c000_0000_0000;

/// 300.
pub const CORRIDOR_SLACK_KM: u64 = 0x4072_c000_0000_0000;

/// 100.
pub const HEADING_LIMIT_DEG: u64 = 0x4059_0000_0000_0000;

/// What was measured of an aircraft against the ends of a route.
#[derive(Clone, Copy, Debug)]
pub struct RouteMeasures {
    /// From the aircraft to the origin.
    pub to_origin_km: Double,
    /// From the aircraft to the destination.
    pub to_destination_km: Double,
    /// From the origin over the aircraft to the destination.
    pub via_km: Double,
    /// From the origin to the destination directly, plus the slack of the corridor.
    pub corridor_km: Double,
    /// Between the track and the bearing to the destination, where the track is known.
    pub off_heading_deg: Option<Double>,
}

/// The position of an end of a route, where the reply gives it as two numbers.
pub open spec fn end_position(a: Option<EndView>) -> Option<(Double, Double)> {
    match a {
        Some(a) => match (a.lat, a.lon) {
            (Some(lat), Some(lon)) => match (lat.real, lon.real) {
                (Some(x), Some(y)) => Some((x, y)),
                _ => None,
            },
            _ => None,
        },
        None => None,
    }
}

/// The positions of both ends of a route, where both are known.
pub open spec fn ends(route: RouteView) -> Option<((Double, Double), (Double, Double))> {
    match (end_position(route.origin), end_position(route.destination)) {
        (Some(o), Some(d)) => Some((o, d)),
        _ => None,
    }
}

/// Whether an aircraft could be flying the route. Within 150 km of either end anything goes;
/// further out, the way over the aircraft must not be more than 300 km longer than the direct
/// one, and the track must stay within 100 degrees of the bearing to the destination.
pub open spec fn fits_route(m: RouteMeasures) -> bool {
    ||| m.to_origin_km.at_most(number(NEAR_KM))
    ||| m.to_destination_km.at_most(number(NEAR_KM))
    ||| !m.corridor_km.less(m.via_km) && (m.off_heading_deg matches Some(d) ==> !number(
        HEADING_LIMIT_DEG,
    ).less(d))
}

/// The position of an end of a route.
fn position_of(a: &Option<RouteAirport>) -> (r: Option<(Double, Double)>)
    ensures
        r == end_position(end_view(*a)),
{
    match a {
        Some(a) => match (&a.lat, &a.lon) {
            (Some(lat), Some(lon)) => match (lat.real, lon.real) {
                (Some(x), Some(y)) => Some((x, y)),
                _ => None,
            },
            _ => None,
        },
        None => None,
    }
}

/// The positions of both ends of a route, where both are known.
pub fn endpoints(route: &Route) -> (r: Option<((Double, Double), (Double, Double))>)
    ensures
        r == ends(route@),
{
    match (position_of(&route.origin), position_of(&route.destination)) {
        (Some(o), Some(d)) => Some((o, d)),
        _ => None,
    }
}

/// Whether an aircraft could be flying the route, or `None` where the ends of the route are not
/// known. Airlines reuse callsigns, so that a filed route can be stale.
pub fn plausible(route: &Route, m: &RouteMeasures) -> (r: Option<bool>)
    ensures
        r == (if ends(route@) is Some {
            Some(fits_route(*m))
        } else {
            None
        }),
{
    if endpoints(route).is_none() {
        return None;
    }
    let near: Double = Double { bits: NEAR_KM };
    if m.to_origin_km.le(&near) || m.to_destination_km.le(&near) {
        return Some(true);
    }
    if m.corridor_km.lt(&m.via_km) {
        return Some(false);
    }
    if let Some(d) = m.off_heading_deg {
        let limit: Double = Double { bits: HEADING_LIMIT_DEG };
        if limit.lt(&d) {
            return Some(false);
        }
    }
    Some(true)
}

/// Near either end anything goes: within 150 km of the origin or of the destination every route
/// is plausible.
pub proof fn near_an_end_anything_goes(m: RouteMeasures)
    requires
        m.to_origin_km.at_most(number(NEAR_KM)) || m.to_destination_km.at_most(number(NEAR_KM)),
    ensures
        fits_route(m),
{
}

proof fn lemma_limits()
    ensures
        number(NEAR_KM).units() == 150 * pow2(1074),
        number(CORRIDOR_SLACK_KM).units() == 300 * pow2(1074),
        number(HEADING_LIMIT_DEG).units() == 100 * pow2(1074),
        !number(NEAR_KM).is_nan() && !number(CORRIDOR_SLACK_KM).is_nan() && !number(
            HEADING_LIMIT_DEG,
        ).is_nan(),
{
    vstd::arithmetic::power2::lemma2_to64();
    vstd::arithmetic::power2::lemma2_to64_rest();
    lemma_whole_number(NEAR_KM, 150, 45);
    lemma_whole_number(CORRIDOR_SLACK_KM, 300, 44);
    lemma_whole_number(HEADING_LIMIT_DEG, 100, 46);
}

/// A route is plausible exactly where the aircraft is at most 150 km from its origin, or at most
/// 150 km from its destination, or is neither outside the corridor nor more than 100 degrees off
/// the heading; what cannot be compared rules nothing out further away. The slack of the corridor
/// is 300 km.
pub proof fn plausibility_goes_by_distance_and_heading(m: RouteMeasures)
    ensures
        fits_route(m) <==> {
            ||| !m.to_origin_km.is_nan() && m.to_origin_km.units() <= 150 * pow2(1074)
            ||| !m.to_destination_km.is_nan() && m.to_destination_km.units() <= 150 * pow2(1074)
            ||| {
                &&& m.corridor_km.is_nan() || m.via_km.is_nan() || m.via_km.units()
                    <= m.corridor_km.units()
                &&& m.off_heading_deg is None || m.off_heading_deg->0.is_nan()
                    || m.off_heading_deg->0.units() <= 100 * pow2(1074)
            }
        },
        number(CORRIDOR_SLACK_KM).units() == 300 * pow2(1074),
{
    lemma_limits();
}

/// The ends of a route are known exactly where the reply gives latitude and longitude of both as
/// numbers; each end is the latitude and the longitude of its own airport, in that order, and the
/// origin comes first.
pub proof fn ends_are_latitude_and_longitude(route: RouteView)
    ensures
        ends(route) is Some <==> {
            &&& route.origin is Some
            &&& route.destination is Some
            &&& route.origin->0.lat is Some && route.origin->0.lat->0.real is Some
            &&& route.origin->0.lon is Some && route.origin->0.lon->0.real is Some
            &&& route.destination->0.lat is Some && route.destination->0.lat->0.real is Some
            &&& route.destination->0.lon is Some && route.destination->0.lon->0.real is Some
        },
        ends(route) is Some ==> {
            let (o, d) = ends(route)->0;
            &&& route.origin->0.lat->0.real == Some(o.0)
            &&& route.origin->0.lon->0.real == Some(o.1)
            &&& route.destination->0.lat->0.real == Some(d.0)
            &&& route.destination->0.lon->0.real == Some(d.1)
        },
{
}

/// A reply is judged by its status first: 404 says that the callsign is unknown, any other status
/// outside 200 to 299 says nothing, and neither depends on the body. A success says nothing
/// either where its body cannot be read.
pub proof fn replies_are_judged_by_status(status: u16, body: Seq<u8>)
    ensures
        status == 404 ==> reply_for(status, body) is Unknown,
        status != 404 && (status < 200 || status > 299) ==> reply_for(status, body) is Unusable,
        200 <= status <= 299 ==> (reply_for(status, body) is Unusable <==> json_at(body, ""@) is None),
        200 <= status <= 299 ==> (reply_for(status, body) is Answer <==> json_at(body, ""@) is Some),
{
}

/// A readable success is read field by field, each from its own place in the reply, and a field
/// that the reply does not have is left out.
pub proof fn routes_are_read_field_by_field(status: u16, body: Seq<u8>)
    requires
        200 <= status <= 299,
        json_at(body, ""@) is Some,
    ensures
        json_at(body, "/response/flightroute"@) is None ==> reply_for(status, body)
            == ReplyView::Answer(None),
        json_at(body, "/response/flightroute"@) is Some ==> ({
            let route = reply_for(status, body)->Answer_0->0;
            &&& reply_for(status, body) matches ReplyView::Answer(Some(_))
            &&& route.callsign == json_at(body, "/response/flightroute/callsign"@)
            &&& route.airline == json_at(body, "/response/flightroute/airline/name"@)
            &&& json_at(body, "/response/flightroute/origin"@) is Some ==> route.origin is Some
                && route.origin->0.iata == json_at(body, "/response/flightroute/origin/iata_code"@)
            &&& json_at(body, "/response/flightroute/origin"@) is Some ==> route.origin is Some
                && route.origin->0.icao == json_at(body, "/response/flightroute/origin/icao_code"@)
            &&& json_at(body, "/response/flightroute/origin"@) is Some ==> route.origin is Some
                && route.origin->0.name == json_at(body, "/response/flightroute/origin/name"@)
            &&& json_at(body, "/response/flightroute/origin"@) is Some ==> route.origin is Some
                && route.origin->0.city == json_at(body, "/response/flightroute/origin/municipality"@)
            &&& json_at(body, "/response/flightroute/origin"@) is Some ==> route.origin is Some
                && route.origin->0.country == json_at(body, "/response/flightroute/origin/country_iso_name"@)
            &&& json_at(body, "/response/flightroute/origin"@) is Some ==> route.origin is Some
                && route.origin->0.lat == json_at(body, "/response/flightroute/origin/latitude"@)
            &&& json_at(body, "/response/flightroute/origin"@) is Some ==> route.origin is Some
                && route.origin->0.lon == json_at(body, "/response/flightroute/origin/longitude"@)
            &&& json_at(body, "/response/flightroute/origin"@) is None ==> route.origin is None
            &&& json_at(body, "/response/flightroute/destination"@) is Some ==> route.destination is Some
                && route.destination->0.iata == json_at(body, "/response/flightroute/destination/iata_code"@)
            &&& json_at(body, "/response/flightroute/destination"@) is Some ==> route.destination is Some
                && route.destination->0.icao == json_at(body, "/response/flightroute/destination/icao_code"@)
            &&& json_at(body, "/response/flightroute/destination"@) is Some ==> route.destination is Some
                && route.destination->0.name == json_at(body, "/response/flightroute/destination/name"@)
            &&& json_at(body, "/response/flightroute/destination"@) is Some ==> route.destination is Some
                && route.destination->0.city == json_at(body, "/response/flightroute/destination/municipality"@)
            &&& json_at(body, "/response/flightroute/destination"@) is Some ==> route.destination is Some
                && route.destination->0.country == json_at(body, "/response/flightroute/destination/country_iso_name"@)
            &&& json_at(body, "/response/flightroute/destination"@) is Some ==> route.destination is Some
                && route.destination->0.lat == json_at(body, "/response/flightroute/destination/latitude"@)
            &&& json_at(body, "/response/flightroute/destination"@) is Some ==> route.destination is Some
                && route.destination->0.lon == json_at(body, "/response/flightroute/destination/longitude"@)
            &&& json_at(body, "/response/flightroute/destination"@) is None ==> route.destination is None
        }),
{
    reveal_strlit("/response/flightroute/origin");
    reveal_strlit("/response/flightroute/origin/iata_code");
    reveal_strlit("/response/flightroute/origin/icao_code");
    reveal_strlit("/response/flightroute/origin/name");
    reveal_strlit("/response/flightroute/origin/municipality");
    reveal_strlit("/response/flightroute/origin/country_iso_name");
    reveal_strlit("/response/flightroute/origin/latitude");
    reveal_strlit("/response/flightroute/origin/longitude");
    reveal_strlit("/response/flightroute/destination");
    reveal_strlit("/response/flightroute/destination/iata_code");
    reveal_strlit("/response/flightroute/destination/icao_code");
    reveal_strlit("/response/flightroute/destination/name");
    reveal_strlit("/response/flightroute/destination/municipality");
    reveal_strlit("/response/flightroute/destination/country_iso_name");
    reveal_strlit("/response/flightroute/destination/latitude");
    reveal_strlit("/response/flightroute/destination/longitude");
    reveal_strlit("/iata_code");
    reveal_strlit("/icao_code");
    reveal_strlit("/name");
    reveal_strlit("/municipality");
    reveal_strlit("/country_iso_name");
    reveal_strlit("/latitude");
    reveal_strlit("/longitude");
    assert("/response/flightroute/origin"@ + "/iata_code"@ =~= "/response/flightroute/origin/iata_code"@);
    assert("/response/flightroute/origin"@ + "/icao_code"@ =~= "/response/flightroute/origin/icao_code"@);
    assert("/response/flightroute/origin"@ + "/name"@ =~= "/response/flightroute/origin/name"@);
    assert("/response/flightroute/origin"@ + "/municipality"@ =~= "/response/flightroute/origin/municipality"@);
    assert("/response/flightroute/origin"@ + "/country_iso_name"@ =~= "/response/flightroute/origin/country_iso_name"@);
    assert("/response/flightroute/origin"@ + "/latitude"@ =~= "/response/flightroute/origin/latitude"@);
    assert("/response/flightroute/origin"@ + "/longitude"@ =~= "/response/flightroute/origin/longitude"@);
    assert("/response/flightroute/destination"@ + "/iata_code"@ =~= "/response/flightroute/destination/iata_code"@);
    assert("/response/flightroute/destination"@ + "/icao_code"@ =~= "/response/flightroute/destination/icao_code"@);
    assert("/response/flightroute/destination"@ + "/name"@ =~= "/response/flightroute/destination/name"@);
    assert("/response/flightroute/destination"@ + "/municipality"@ =~= "/response/flightroute/destination/municipality"@);
    assert("/response/flightroute/destination"@ + "/country_iso_name"@ =~= "/response/flightroute/destination/country_iso_name"@);
    assert("/response/flightroute/destination"@ + "/latitude"@ =~= "/response/flightroute/destination/latitude"@);
    assert("/response/flightroute/destination"@ + "/longitude"@ =~= "/response/flightroute/destination/longitude"@);
}

/// The key of a callsign in ASCII holds its letters and digits and nothing else, with letters as
/// capitals: two callsigns that differ in case, white space or punctuation alone share a key.
pub proof fn route_keys_ignore_case_and_punctuation(callsign: Seq<char>)
    requires
        ascii_text(callsign),
    ensures
        ({
            let kept = callsign.filter(
                |c: char| '0' <= c <= '9' || 'a' <= c <= 'z' || 'A' <= c <= 'Z',
            );
            let key = route_key(callsign);
            &&& key.len() == kept.len()
            &&& forall|i: int|
                0 <= i < kept.len() ==> {
                    let c = #[trigger] kept[i];
                    &&& 'a' <= c <= 'z' ==> key[i] as int == c as int - 32
                    &&& !('a' <= c <= 'z') ==> key[i] == c
                }
        }),
{
    lemma_trimmed_alnum(callsign);
    let mid = trimmed(callsign);
    assert(ascii_text(mid)) by {
        trimming_takes_white_space_only(callsign);
        let (a, b) = choose|a: int, b: int|
            {
                &&& 0 <= a <= b <= callsign.len()
                &&& mid == #[trigger] callsign.subrange(a, b)
                &&& forall|i: int| 0 <= i < a ==> is_space(#[trigger] callsign[i])
                &&& forall|i: int| b <= i < callsign.len() ==> is_space(#[trigger] callsign[i])
            };
        assert forall|i: int| 0 <= i < mid.len() implies #[trigger] mid[i] <= '\u{7f}' by {
            assert(mid[i] == callsign[a + i]);
        }
    }
    lemma_upper_alnum(mid);
    only_letters_and_digits_are_kept(callsign);
    let kept = alnum_only(callsign);
    assert forall|i: int| 0 <= i < kept.len() implies {
        let c = #[trigger] kept[i];
        &&& 'a' <= c <= 'z' ==> route_key(callsign)[i] as int == c as int - 32
        &&& !('a' <= c <= 'z') ==> route_key(callsign)[i] == c
    } by {
        case_mappings_touch_letters_only(kept, i);
    }
}

proof fn lemma_upper_alnum(s: Seq<char>)
    ensures
        alnum_only(ascii_upper(s)) == ascii_upper(alnum_only(s)),
    decreases s.len(),
{
    if s.len() > 0 {
        let less = s.drop_last();
        lemma_upper_alnum(less);
        assert(ascii_upper(s).drop_last() =~= ascii_upper(less));
        case_mappings_touch_letters_only(s, s.len() - 1);
        if is_ascii_alnum(s.last()) {
            assert(ascii_upper(alnum_only(less).push(s.last())) =~= ascii_upper(
                alnum_only(less),
            ).push(ascii_upper_char(s.last())));
        }
    } else {
        assert(ascii_upper(s) =~= s);
    }
}

proof fn lemma_trimmed_alnum(s: Seq<char>)
    ensures
        alnum_only(trimmed(s)) == alnum_only(s),
{
    trimming_takes_white_space_only(s);
    let (a, b) = choose|a: int, b: int|
        {
            &&& 0 <= a <= b <= s.len()
            &&& trimmed(s) == #[trigger] s.subrange(a, b)
            &&& forall|i: int| 0 <= i < a ==> is_space(#[trigger] s[i])
            &&& forall|i: int| b <= i < s.len() ==> is_space(#[trigger] s[i])
        };
    lemma_no_alnum(s.take(a));
    lemma_no_alnum(s.skip(b));
    lemma_alnum_parts(s.take(a), s.subrange(a, b));
    lemma_alnum_parts(s.take(b), s.skip(b));
    assert(s.take(a) + s.subrange(a, b) =~= s.take(b));
    assert(s.take(b) + s.skip(b) =~= s);
    assert(alnum_only(s.take(a)) + alnum_only(s.subrange(a, b)) =~= alnum_only(s.subrange(a, b)));
    assert(alnum_only(s.take(b)) + alnum_only(s.skip(b)) =~= alnum_only(s.take(b)));
}

proof fn lemma_no_alnum(s: Seq<char>)
    requires
        forall|i: int| 0 <= i < s.len() ==> is_space(#[trigger] s[i]),
    ensures
        alnum_only(s) == Seq::<char>::empty(),
    decreases s.len(),
{
    if s.len() > 0 {
        let less = s.drop_last();
        assert forall|i: int| 0 <= i < less.len() implies is_space(#[trigger] less[i]) by {
            assert(less[i] == s[i]);
        }
        lemma_no_alnum(less);
        assert(is_space(s[s.len() - 1]));
    }
}

proof fn lemma_alnum_parts(a: Seq<char>, b: Seq<char>)
    ensures
        alnum_only(a + b) == alnum_only(a) + alnum_only(b),
    decreases b.len(),
{
    if b.len() == 0 {
        assert(a + b =~= a);
        assert(alnum_only(a) + alnum_only(b) =~= alnum_only(a));
    } else {
        lemma_alnum_parts(a, b.drop_last());
        assert((a + b).drop_last() =~= a + b.drop_last());
        assert(alnum_only(a + b) =~= alnum_only(a) + alnum_only(b));
    }
}

} // verus!
