//! Which contacts deserve attention, and why.
use vstd::prelude::*;

use crate::config::Config;
use crate::double::Double;
use crate::feeds::{Aircraft, Altitude, AltitudeView};
use crate::operators::{operator_for, operator_name};
use crate::text::{
    chars_of, copy_text, copy_texts, holds_text, is_text, join, matches_at, same_text, string_between, text_of,
    texts_of, to_upper, trim, trimmed, upper,
};

verus! {

/// Name tag of an airport.
#[derive(Clone, Debug)]
pub struct AirportTag {
    pub code: String,
    pub name: String,
}

/// What was measured of a contact's position.
#[derive(Clone, Debug)]
pub struct Measure {
    /// Distance from home.
    pub dst_km: Double,
    /// Bearing from home.
    pub bearing: Double,
    /// The nearest airport, where one is close enough.
    pub airport: Option<AirportTag>,
}

/// A classified contact.
#[derive(Clone, Debug)]
pub struct UiAircraft {
    pub hex: String,
    pub flight: Option<String>,
    pub reg: Option<String>,
    pub t: Option<String>,
    pub desc: Option<String>,
    pub operator: Option<String>,
    pub lat: Option<Double>,
    pub lon: Option<Double>,
    pub alt_baro: Option<Altitude>,
    pub gs: Option<Double>,
    pub track: Option<Double>,
    pub baro_rate: Option<Double>,
    pub squawk: Option<String>,
    pub emergency: Option<String>,
    pub category: Option<String>,
    pub db_flags: u32,
    pub seen: Option<Double>,
    pub dst_km: Option<Double>,
    pub bearing: Option<Double>,
    /// Nearest airport code, set only when the aircraft is on the ground.
    pub airport: Option<String>,
    pub airport_name: Option<String>,
    pub overhead: bool,
    pub interesting: bool,
    pub is_emergency: bool,
    pub reasons: Vec<String>,
}

/// A classified contact, over character sequences.
pub ghost struct Contact {
    pub hex: Seq<char>,
    pub flight: Option<Seq<char>>,
    pub reg: Option<Seq<char>>,
    pub t: Option<Seq<char>>,
    pub desc: Option<Seq<char>>,
    pub operator: Option<Seq<char>>,
    pub lat: Option<Double>,
    pub lon: Option<Double>,
    pub alt_baro: Option<AltitudeView>,
    pub gs: Option<Double>,
    pub track: Option<Double>,
    pub baro_rate: Option<Double>,
    pub squawk: Option<Seq<char>>,
    pub emergency: Option<Seq<char>>,
    pub category: Option<Seq<char>>,
    pub db_flags: u32,
    pub seen: Option<Double>,
    pub dst_km: Option<Double>,
    pub bearing: Option<Double>,
    pub airport: Option<Seq<char>>,
    pub airport_name: Option<Seq<char>>,
    pub overhead: bool,
    pub interesting: bool,
    pub is_emergency: bool,
    pub reasons: Seq<Seq<char>>,
}

impl View for UiAircraft {
    type V = Contact;

    open spec fn view(&self) -> Contact {
        Contact {
            hex: self.hex@,
            flight: text_of(self.flight),
            reg: text_of(self.reg),
            t: text_of(self.t),
            desc: text_of(self.desc),
            operator: text_of(self.operator),
            lat: self.lat,
            lon: self.lon,
            alt_baro: crate::feeds::altitude_view(self.alt_baro),
            gs: self.gs,
            track: self.track,
            baro_rate: self.baro_rate,
            squawk: text_of(self.squawk),
            emergency: text_of(self.emergency),
            category: text_of(self.category),
            db_flags: self.db_flags,
            seen: self.seen,
            dst_km: self.dst_km,
            bearing: self.bearing,
            airport: text_of(self.airport),
            airport_name: text_of(self.airport_name),
            overhead: self.overhead,
            interesting: self.interesting,
            is_emergency: self.is_emergency,
            reasons: texts_of(self.reasons@),
        }
    }
}

/// The eight compass points, clockwise from north.
pub open spec fn compass_points() -> Seq<Seq<char>> {
    seq!["N"@, "NE"@, "E"@, "SE"@, "S"@, "SW"@, "W"@, "NW"@]
}

/// Bit 0 of the database flags: a military airframe.
pub open spec fn is_military(flags: u32) -> bool {
    flags % 2 == 1
}

/// Bit 1 of the database flags: an airframe marked as interesting.
pub open spec fn is_marked(flags: u32) -> bool {
    (flags / 2) % 2 == 1
}

/// Emitter categories C1 to C5: surface vehicles and fixed obstructions.
pub open spec fn is_surface(category: Option<Seq<char>>) -> bool {
    category matches Some(c) && c.len() == 2 && c[0] == 'C' && '1' <= c[1] <= '5'
}

/// Whether a watchlist entry, trimmed and in upper case, matches a contact with the given type
/// code and callsign, both trimmed and in upper case. An entry that ends in `*` is a callsign
/// prefix; any other entry is a type code and matches it exactly. An entry with nothing in it
/// matches nothing.
pub open spec fn entry_matches(
    entry: Seq<char>,
    type_code: Seq<char>,
    callsign: Seq<char>,
) -> bool {
    if entry.len() == 0 {
        false
    } else if entry.last() == '*' {
        entry.len() > 1 && entry.drop_last().is_prefix_of(callsign)
    } else {
        entry == type_code
    }
}

/// The first entry that matches.
pub open spec fn first_match(
    entries: Seq<Seq<char>>,
    type_code: Seq<char>,
    callsign: Seq<char>,
) -> Option<Seq<char>>
    decreases entries.len(),
{
    if entries.len() == 0 {
        None
    } else if entry_matches(entries[0], type_code, callsign) {
        Some(entries[0])
    } else {
        first_match(entries.skip(1), type_code, callsign)
    }
}

/// A text as it is compared: trimmed and in upper case.
pub open spec fn folded(s: Seq<char>) -> Seq<char> {
    upper(trimmed(s))
}

/// An optional text as it is compared; absent is empty.
pub open spec fn folded_option(s: Option<Seq<char>>) -> Seq<char> {
    match s {
        Some(s) => folded(s),
        None => folded(""@),
    }
}

/// A list of texts as they are compared.
pub open spec fn folded_all(entries: Seq<Seq<char>>) -> Seq<Seq<char>> {
    entries.map_values(|s: Seq<char>| folded(s))
}

/// The watchlist entry that a contact matches.
pub open spec fn watched(ac: Aircraft, cfg: Config) -> Option<Seq<char>> {
    first_match(
        folded_all(texts_of(cfg.watchlist@)),
        folded_option(text_of(ac.t)),
        folded_option(text_of(ac.flight)),
    )
}

/// The emergency status field declares an emergency: it is there, not empty and not "none".
pub open spec fn declared(emergency: Option<Seq<char>>) -> Option<Seq<char>> {
    match emergency {
        Some(e) => if e.len() > 0 && e != "none"@ {
            Some(e)
        } else {
            None
        },
        None => None,
    }
}

/// The contact wears one of the listed squawks.
pub open spec fn listed_squawk(ac: Aircraft, cfg: Config) -> bool {
    text_of(ac.squawk) matches Some(s) && texts_of(cfg.emergency_squawks@).contains(s)
}

/// The contact has a position.
pub open spec fn positioned(ac: Aircraft) -> bool {
    ac.lat is Some && ac.lon is Some
}

/// The measured distance of a contact that has a position.
pub open spec fn distance(ac: Aircraft, measure: Option<Measure>) -> Option<Double> {
    if positioned(ac) {
        match measure {
            Some(m) => Some(m.dst_km),
            None => None,
        }
    } else {
        None
    }
}

/// The measured bearing of a contact that has a position.
pub open spec fn direction(ac: Aircraft, measure: Option<Measure>) -> Option<Double> {
    if positioned(ac) {
        match measure {
            Some(m) => Some(m.bearing),
            None => None,
        }
    } else {
        None
    }
}

/// The airport that a contact is tagged with: the nearest one, where it is on the ground.
pub open spec fn airport_tag(ac: Aircraft, measure: Option<Measure>) -> Option<AirportTag> {
    if grounded(ac) && positioned(ac) && measure is Some {
        measure->0.airport
    } else {
        None
    }
}

/// A text without the white space around it, where there is a text.
pub open spec fn trimmed_option(s: Option<Seq<char>>) -> Option<Seq<char>> {
    match s {
        Some(s) => Some(trimmed(s)),
        None => None,
    }
}

/// The contact says that it is on the ground.
pub open spec fn grounded(ac: Aircraft) -> bool {
    ac.alt_baro is Some && ac.alt_baro->0 is Ground
}

/// Overhead: an aircraft within the overhead radius, at or below the ceiling as far as its
/// altitude is known, and not on the ground.
pub open spec fn is_overhead(ac: Aircraft, cfg: Config, measure: Option<Measure>) -> bool {
    &&& !is_surface(text_of(ac.category))
    &&& !grounded(ac)
    &&& distance(ac, measure) matches Some(d) && d.at_most(cfg.overhead_radius_km)
    &&& (ac.alt_baro matches Some(Altitude::Feet(a)) ==> a.at_most(cfg.overhead_ceiling_ft))
}

/// Interesting: an aircraft that is military, marked in the database, a balloon, or on the
/// watchlist.
pub open spec fn is_interesting(ac: Aircraft, cfg: Config) -> bool {
    &&& !is_surface(text_of(ac.category))
    &&& {
        ||| is_military(flags_of(ac))
        ||| is_marked(flags_of(ac))
        ||| text_of(ac.category) == Some("B2"@)
        ||| watched(ac, cfg) is Some
    }
}

/// Emergency: an aircraft that declares one or wears a listed squawk.
pub open spec fn is_emergency(ac: Aircraft, cfg: Config) -> bool {
    &&& !is_surface(text_of(ac.category))
    &&& declared(text_of(ac.emergency)) is Some || listed_squawk(ac, cfg)
}

/// The database flags, zero where there are none.
pub open spec fn flags_of(ac: Aircraft) -> u32 {
    match ac.db_flags {
        Some(f) => f,
        None => 0,
    }
}

/// One entry where `on`, none where not.
pub open spec fn only_if(on: bool, s: Seq<char>) -> Seq<Seq<char>> {
    if on {
        seq![s]
    } else {
        Seq::empty()
    }
}

/// One entry, the text behind the prefix, where there is a text; none where there is not.
pub open spec fn only_some(prefix: Seq<char>, s: Option<Seq<char>>) -> Seq<Seq<char>> {
    match s {
        Some(s) => seq![prefix + s],
        None => Seq::empty(),
    }
}

/// The listed squawk that the contact wears, where that is all that makes it an emergency.
pub open spec fn backup_squawk(ac: Aircraft, cfg: Config) -> Option<Seq<char>> {
    if declared(text_of(ac.emergency)) is None && listed_squawk(ac, cfg) {
        text_of(ac.squawk)
    } else {
        None
    }
}

/// Why the contact belongs to its classes, most general class first.
pub open spec fn reasons_for(ac: Aircraft, cfg: Config, measure: Option<Measure>) -> Seq<Seq<char>> {
    if is_surface(text_of(ac.category)) {
        Seq::empty()
    } else {
        only_if(is_overhead(ac, cfg, measure), "overhead"@) + only_if(
            is_military(flags_of(ac)),
            "military"@,
        ) + only_if(is_marked(flags_of(ac)), "interesting"@) + only_if(
            text_of(ac.category) == Some("B2"@),
            "balloon"@,
        ) + only_some("watchlist:"@, watched(ac, cfg)) + only_some(
            "emergency:"@,
            declared(text_of(ac.emergency)),
        ) + only_some("squawk:"@, backup_squawk(ac, cfg))
    }
}

/// The classified form of a contact.
pub open spec fn classified(ac: Aircraft, cfg: Config, measure: Option<Measure>) -> Contact {
    Contact {
        hex: ac.hex@,
        flight: trimmed_option(text_of(ac.flight)),
        reg: text_of(ac.r),
        t: text_of(ac.t),
        desc: text_of(ac.desc),
        operator: operator_name(text_of(ac.flight), is_military(flags_of(ac))),
        lat: ac.lat,
        lon: ac.lon,
        alt_baro: crate::feeds::altitude_view(ac.alt_baro),
        gs: ac.gs,
        track: ac.track,
        baro_rate: ac.baro_rate,
        squawk: text_of(ac.squawk),
        emergency: text_of(ac.emergency),
        category: text_of(ac.category),
        db_flags: flags_of(ac),
        seen: ac.seen,
        dst_km: distance(ac, measure),
        bearing: direction(ac, measure),
        airport: match airport_tag(ac, measure) {
            Some(a) => Some(a.code@),
            None => None,
        },
        airport_name: match airport_tag(ac, measure) {
            Some(a) => Some(a.name@),
            None => None,
        },
        overhead: is_overhead(ac, cfg, measure),
        interesting: is_interesting(ac, cfg),
        is_emergency: is_emergency(ac, cfg),
        reasons: reasons_for(ac, cfg, measure),
    }
}

/// The compass point of a sector: sector 0 is north, and each following sector is 45 degrees
/// further clockwise.
pub fn compass(sector: usize) -> (r: &'static str)
    ensures
        r@ == compass_points()[sector as int % 8],
{
    let p: usize = sector % 8;
    if p == 0 {
        "N"
    } else if p == 1 {
        "NE"
    } else if p == 2 {
        "E"
    } else if p == 3 {
        "SE"
    } else if p == 4 {
        "S"
    } else if p == 5 {
        "SW"
    } else if p == 6 {
        "W"
    } else {
        "NW"
    }
}

/// Whether the emitter category names a surface vehicle or a fixed obstruction.
pub fn surface(category: &Option<String>) -> (r: bool)
    ensures
        r == is_surface(text_of(*category)),
{
    match category {
        Some(c) => {
            let v: Vec<char> = chars_of(c.as_str());
            v.len() == 2 && v[0] == 'C' && '1' <= v[1] && v[1] <= '5'
        },
        None => false,
    }
}

/// Whether a watchlist entry matches. All three texts are trimmed and in upper case.
pub fn watch_entry_matches(entry: &str, type_code: &str, callsign: &str) -> (r: bool)
    ensures
        r == entry_matches(entry@, type_code@, callsign@),
{
    let v: Vec<char> = chars_of(entry);
    let n: usize = v.len();
    if n == 0 {
        false
    } else if v[n - 1] == '*' {
        let prefix: Vec<char> = chars_of(string_between(&v, 0, n - 1).as_str());
        let c: Vec<char> = chars_of(callsign);
        assert(v@.subrange(0, n - 1) == entry@.drop_last());
        assert(c@.skip(0) == c@);
        n > 1 && matches_at(&c, 0, &prefix)
    } else {
        same_text(entry, type_code)
    }
}

/// The first watchlist entry that matches. All texts are trimmed and in upper case.
pub fn watch_match(entries: &Vec<String>, type_code: &str, callsign: &str) -> (r: Option<String>)
    ensures
        text_of(r) == first_match(texts_of(entries@), type_code@, callsign@),
{
    let n: usize = entries.len();
    let mut i: usize = 0;
    let ghost all = texts_of(entries@);
    assert(all.skip(0) == all);
    while i < n
        invariant
            n == entries@.len(),
            i <= n,
            all == texts_of(entries@),
            first_match(all, type_code@, callsign@) == first_match(
                all.skip(i as int),
                type_code@,
                callsign@,
            ),
        decreases n - i,
    {
        assert(all.skip(i as int)[0] == entries@[i as int]@);
        if watch_entry_matches(entries[i].as_str(), type_code, callsign) {
            return Some(entries[i].clone());
        }
        assert(all.skip(i as int).skip(1) == all.skip(i + 1));
        i += 1;
    }
    None
}

fn fold(s: &str) -> (r: String)
    ensures
        r@ == folded(s@),
{
    to_upper(trim(s).as_str())
}

fn fold_option(s: &Option<String>) -> (r: String)
    ensures
        r@ == folded_option(text_of(*s)),
{
    match s {
        Some(s) => fold(s.as_str()),
        None => fold(""),
    }
}

fn fold_all(entries: &Vec<String>) -> (r: Vec<String>)
    ensures
        texts_of(r@) == folded_all(texts_of(entries@)),
{
    let mut r: Vec<String> = Vec::new();
    let n: usize = entries.len();
    let mut i: usize = 0;
    while i < n
        invariant
            n == entries@.len(),
            i <= n,
            texts_of(r@) == folded_all(texts_of(entries@)).take(i as int),
        decreases n - i,
    {
        let ghost before = texts_of(r@);
        let f: String = fold(entries[i].as_str());
        r.push(f);
        assert(texts_of(r@) =~= before.push(f@));
        assert(folded_all(texts_of(entries@))[i as int] == f@);
        i += 1;
    }
    r
}

/// Appends `reason` where `on`.
fn note(reasons: &mut Vec<String>, on: bool, reason: &str)
    ensures
        texts_of(final(reasons)@) == texts_of(old(reasons)@) + only_if(on, reason@),
{
    let ghost before = texts_of(reasons@);
    if on {
        reasons.push(reason.to_owned());
        assert(texts_of(reasons@) =~= before + seq![reason@]);
    } else {
        assert(texts_of(reasons@) =~= before + Seq::<Seq<char>>::empty());
    }
}

/// Appends the text behind the prefix, where there is a text.
fn note_some(reasons: &mut Vec<String>, prefix: &str, s: &Option<String>)
    ensures
        texts_of(final(reasons)@) == texts_of(old(reasons)@) + only_some(prefix@, text_of(*s)),
{
    match s {
        Some(s) => {
            note(reasons, true, join(prefix, s.as_str()).as_str());
        },
        None => {
            assert(texts_of(reasons@) =~= texts_of(reasons@) + Seq::<Seq<char>>::empty());
        },
    }
}

fn collect_reasons(
    overhead: bool,
    military: bool,
    marked: bool,
    balloon: bool,
    watch: &Option<String>,
    emergency: &Option<String>,
    backup: &Option<String>,
) -> (r: Vec<String>)
    ensures
        texts_of(r@) == only_if(overhead, "overhead"@) + only_if(military, "military"@) + only_if(
            marked,
            "interesting"@,
        ) + only_if(balloon, "balloon"@) + only_some("watchlist:"@, text_of(*watch)) + only_some(
            "emergency:"@,
            text_of(*emergency),
        ) + only_some("squawk:"@, text_of(*backup)),
{
    let mut reasons: Vec<String> = Vec::new();
    assert(texts_of(reasons@) =~= Seq::<Seq<char>>::empty());
    note(&mut reasons, overhead, "overhead");
    assert(texts_of(reasons@) =~= only_if(overhead, "overhead"@));
    note(&mut reasons, military, "military");
    note(&mut reasons, marked, "interesting");
    note(&mut reasons, balloon, "balloon");
    note_some(&mut reasons, "watchlist:", watch);
    note_some(&mut reasons, "emergency:", emergency);
    note_some(&mut reasons, "squawk:", backup);
    reasons
}

/// Whether the emergency status field declares an emergency, and which.
fn declared_emergency(emergency: &Option<String>) -> (r: Option<String>)
    ensures
        text_of(r) == declared(text_of(*emergency)),
{
    match emergency {
        Some(e) => if !e.as_str().is_empty() && !same_text(e.as_str(), "none") {
            Some(e.clone())
        } else {
            None
        },
        None => None,
    }
}

fn on_ground(ac: &Aircraft) -> (r: bool)
    ensures
        r == grounded(*ac),
{
    match &ac.alt_baro {
        Some(Altitude::Ground) => true,
        _ => false,
    }
}

fn has_position(ac: &Aircraft) -> (r: bool)
    ensures
        r == positioned(*ac),
{
    ac.lat.is_some() && ac.lon.is_some()
}

fn measured(ac: &Aircraft, measure: &Option<Measure>) -> (r: (Option<Double>, Option<Double>))
    ensures
        r.0 == distance(*ac, *measure),
        r.1 == direction(*ac, *measure),
{
    match measure {
        Some(m) => if has_position(ac) {
            (Some(m.dst_km), Some(m.bearing))
        } else {
            (None, None)
        },
        None => (None, None),
    }
}

fn tag_of(ac: &Aircraft, measure: &Option<Measure>) -> (r: (Option<String>, Option<String>))
    ensures
        text_of(r.0) == (match airport_tag(*ac, *measure) {
            Some(a) => Some(a.code@),
            None => None,
        }),
        text_of(r.1) == (match airport_tag(*ac, *measure) {
            Some(a) => Some(a.name@),
            None => None,
        }),
{
    match measure {
        Some(m) => match &m.airport {
            Some(a) => if on_ground(ac) && has_position(ac) {
                (Some(a.code.clone()), Some(a.name.clone()))
            } else {
                (None, None)
            },
            None => (None, None),
        },
        None => (None, None),
    }
}

fn overhead_now(ac: &Aircraft, cfg: &Config, dst_km: &Option<Double>, vehicle: bool) -> (r: bool)
    ensures
        r == (!vehicle && !grounded(*ac) && (*dst_km matches Some(d) && d.at_most(
            cfg.overhead_radius_km,
        )) && (ac.alt_baro matches Some(Altitude::Feet(a)) ==> a.at_most(cfg.overhead_ceiling_ft))),
{
    let near: bool = match dst_km {
        Some(d) => d.le(&cfg.overhead_radius_km),
        None => false,
    };
    let low: bool = match &ac.alt_baro {
        Some(Altitude::Feet(a)) => a.le(&cfg.overhead_ceiling_ft),
        _ => true,
    };
    !vehicle && !on_ground(ac) && near && low
}

fn watch_entry(ac: &Aircraft, cfg: &Config) -> (r: Option<String>)
    ensures
        text_of(r) == watched(*ac, *cfg),
{
    watch_match(
        &fold_all(&cfg.watchlist),
        fold_option(&ac.t).as_str(),
        fold_option(&ac.flight).as_str(),
    )
}

fn wears_listed(ac: &Aircraft, cfg: &Config) -> (r: bool)
    ensures
        r == listed_squawk(*ac, *cfg),
{
    match &ac.squawk {
        Some(s) => holds_text(&cfg.emergency_squawks, s.as_str()),
        None => false,
    }
}

fn trimmed_flight(ac: &Aircraft) -> (r: Option<String>)
    ensures
        text_of(r) == trimmed_option(text_of(ac.flight)),
{
    match &ac.flight {
        Some(f) => Some(trim(f.as_str())),
        None => None,
    }
}

fn operated_by(ac: &Aircraft, military: bool) -> (r: Option<String>)
    ensures
        text_of(r) == operator_name(text_of(ac.flight), military),
{
    operator_for(
        match &ac.flight {
            Some(f) => Some(f.as_str()),
            None => None,
        },
        military,
    )
}

/// Classifies one contact. `measure` is what was measured of its position.
pub fn classify(ac: &Aircraft, cfg: &Config, measure: &Option<Measure>) -> (r: UiAircraft)
    ensures
        r@ == classified(*ac, *cfg, *measure),
{
    let (dst_km, bearing): (Option<Double>, Option<Double>) = measured(ac, measure);
    let (airport, airport_name): (Option<String>, Option<String>) = tag_of(ac, measure);
    let flags: u32 = match ac.db_flags {
        Some(f) => f,
        None => 0,
    };
    let vehicle: bool = surface(&ac.category);
    let overhead: bool = overhead_now(ac, cfg, &dst_km, vehicle);
    let military: bool = flags % 2 == 1;
    let marked: bool = (flags / 2) % 2 == 1;
    let balloon: bool = is_text(&ac.category, "B2");
    let watch: Option<String> = watch_entry(ac, cfg);
    let emergency: Option<String> = declared_emergency(&ac.emergency);
    let listed: bool = wears_listed(ac, cfg);
    let backup: Option<String> = if emergency.is_none() && listed {
        copy_text(&ac.squawk)
    } else {
        None
    };
    let reasons: Vec<String> = if vehicle {
        Vec::new()
    } else {
        collect_reasons(overhead, military, marked, balloon, &watch, &emergency, &backup)
    };
    assert(texts_of(reasons@) =~= reasons_for(*ac, *cfg, *measure));
    UiAircraft {
        hex: ac.hex.clone(),
        flight: trimmed_flight(ac),
        reg: copy_text(&ac.r),
        t: copy_text(&ac.t),
        desc: copy_text(&ac.desc),
        operator: operated_by(ac, military),
        lat: ac.lat,
        lon: ac.lon,
        alt_baro: crate::feeds::copy_altitude(&ac.alt_baro),
        gs: ac.gs,
        track: ac.track,
        baro_rate: ac.baro_rate,
        squawk: copy_text(&ac.squawk),
        emergency: copy_text(&ac.emergency),
        category: copy_text(&ac.category),
        db_flags: flags,
        seen: ac.seen,
        dst_km,
        bearing,
        airport,
        airport_name,
        overhead,
        interesting: !vehicle && (military || marked || balloon || watch.is_some()),
        is_emergency: !vehicle && (emergency.is_some() || listed),
        reasons,
    }
}

/// A copy of a classified contact.
pub fn copy_contact(a: &UiAircraft) -> (r: UiAircraft)
    ensures
        r@ == a@,
{
    UiAircraft {
        hex: a.hex.clone(),
        flight: copy_text(&a.flight),
        reg: copy_text(&a.reg),
        t: copy_text(&a.t),
        desc: copy_text(&a.desc),
        operator: copy_text(&a.operator),
        lat: a.lat,
        lon: a.lon,
        alt_baro: crate::feeds::copy_altitude(&a.alt_baro),
        gs: a.gs,
        track: a.track,
        baro_rate: a.baro_rate,
        squawk: copy_text(&a.squawk),
        emergency: copy_text(&a.emergency),
        category: copy_text(&a.category),
        db_flags: a.db_flags,
        seen: a.seen,
        dst_km: a.dst_km,
        bearing: a.bearing,
        airport: copy_text(&a.airport),
        airport_name: copy_text(&a.airport_name),
        overhead: a.overhead,
        interesting: a.interesting,
        is_emergency: a.is_emergency,
        reasons: copy_texts(&a.reasons),
    }
}

/// Surface vehicles and fixed obstructions belong to no alert class, whatever else they report.
pub proof fn surface_emitters_never_alert(ac: Aircraft, cfg: Config, measure: Option<Measure>)
    requires
        is_surface(text_of(ac.category)),
    ensures
        ({
            let c = classified(ac, cfg, measure);
            !c.overhead && !c.interesting && !c.is_emergency && c.reasons.len() == 0
        }),
{
}

/// A contact that is on the ground is not overhead.
pub proof fn grounded_is_never_overhead(ac: Aircraft, cfg: Config, measure: Option<Measure>)
    requires
        grounded(ac),
    ensures
        !classified(ac, cfg, measure).overhead,
{
}

/// A watchlist entry without a trailing `*` never matches by callsign, and never matches a type
/// code that merely begins with it.
pub proof fn bare_entries_match_types_exactly(
    entry: Seq<char>,
    type_code: Seq<char>,
    callsign: Seq<char>,
)
    requires
        entry.len() == 0 || entry.last() != '*',
    ensures
        entry_matches(entry, type_code, callsign) ==> type_code == entry,
{
}

proof fn lemma_joined_len(
    a: Seq<Seq<char>>,
    b: Seq<Seq<char>>,
    c: Seq<Seq<char>>,
    d: Seq<Seq<char>>,
    e: Seq<Seq<char>>,
    f: Seq<Seq<char>>,
    g: Seq<Seq<char>>,
)
    ensures
        (a + b + c + d + e + f + g).len() == a.len() + b.len() + c.len() + d.len() + e.len()
            + f.len() + g.len(),
{
}

/// A contact has reasons exactly where it belongs to a class.
pub proof fn reasons_show_the_classes(ac: Aircraft, cfg: Config, measure: Option<Measure>)
    ensures
        ({
            let c = classified(ac, cfg, measure);
            c.reasons.len() > 0 <==> c.overhead || c.interesting || c.is_emergency
        }),
{
    let a = only_if(is_overhead(ac, cfg, measure), "overhead"@);
    let b = only_if(is_military(flags_of(ac)), "military"@);
    let c = only_if(is_marked(flags_of(ac)), "interesting"@);
    let d = only_if(text_of(ac.category) == Some("B2"@), "balloon"@);
    let e = only_some("watchlist:"@, watched(ac, cfg));
    let f = only_some("emergency:"@, declared(text_of(ac.emergency)));
    let g = only_some("squawk:"@, backup_squawk(ac, cfg));
    lemma_joined_len(a, b, c, d, e, f, g);
    if !is_surface(text_of(ac.category)) {
        assert(reasons_for(ac, cfg, measure) == a + b + c + d + e + f + g);
        assert(a.len() > 0 <==> is_overhead(ac, cfg, measure));
        assert(b.len() + c.len() + d.len() + e.len() > 0 <==> is_interesting(ac, cfg));
        assert(f.len() + g.len() > 0 <==> is_emergency(ac, cfg));
    }
}

/// Surface vehicles and fixed obstructions are the emitter categories C1, C2, C3, C4 and C5, and
/// no others.
pub proof fn surface_categories_are_c1_to_c5(category: Option<Seq<char>>)
    ensures
        is_surface(category) <==> (category == Some("C1"@) || category == Some("C2"@) || category
            == Some("C3"@) || category == Some("C4"@) || category == Some("C5"@)),
{
    reveal_strlit("C1");
    reveal_strlit("C2");
    reveal_strlit("C3");
    reveal_strlit("C4");
    reveal_strlit("C5");
    if let Some(c) = category {
        if is_surface(category) {
            assert(c =~= "C1"@ || c =~= "C2"@ || c =~= "C3"@ || c =~= "C4"@ || c =~= "C5"@);
        }
    }
}

/// What a record reports is passed on as it is; missing flags read as none set, and the callsign
/// loses the white space around it.
pub proof fn reports_are_passed_on(ac: Aircraft, cfg: Config, measure: Option<Measure>)
    ensures
        ({
            let c = classified(ac, cfg, measure);
            &&& c.hex == ac.hex@
            &&& c.reg == text_of(ac.r)
            &&& c.t == text_of(ac.t)
            &&& c.desc == text_of(ac.desc)
            &&& c.lat == ac.lat
            &&& c.lon == ac.lon
            &&& c.gs == ac.gs
            &&& c.track == ac.track
            &&& c.baro_rate == ac.baro_rate
            &&& c.squawk == text_of(ac.squawk)
            &&& c.emergency == text_of(ac.emergency)
            &&& c.category == text_of(ac.category)
            &&& c.seen == ac.seen
            &&& ac.db_flags matches Some(f) ==> c.db_flags == f
            &&& ac.db_flags is None ==> c.db_flags == 0
            &&& ac.flight is None ==> c.flight is None
            &&& ac.flight matches Some(f) ==> c.flight == Some(trimmed(f@))
            &&& ac.alt_baro is None ==> c.alt_baro is None
            &&& ac.alt_baro matches Some(Altitude::Feet(x)) ==> c.alt_baro == Some(
                AltitudeView::Feet(x),
            )
            &&& ac.alt_baro matches Some(Altitude::Ground) ==> c.alt_baro == Some(
                AltitudeView::Ground,
            )
            &&& ac.alt_baro matches Some(Altitude::Other(s)) ==> c.alt_baro == Some(
                AltitudeView::Other(s@),
            )
        }),
{
}

/// A contact has a distance and a bearing, as they were measured, exactly where it has a position;
/// it is tagged with an airport only where it says that it is on the ground.
pub proof fn measures_need_a_position(ac: Aircraft, cfg: Config, m: Measure)
    ensures
        ({
            let c = classified(ac, cfg, Some(m));
            let placed = ac.lat is Some && ac.lon is Some;
            let down = ac.alt_baro matches Some(Altitude::Ground);
            &&& placed ==> c.dst_km == Some(m.dst_km) && c.bearing == Some(m.bearing)
            &&& !placed ==> c.dst_km is None && c.bearing is None
            &&& placed && down && m.airport is Some ==> c.airport == Some(m.airport->0.code@)
                && c.airport_name == Some(m.airport->0.name@)
            &&& !placed || !down || m.airport is None ==> c.airport is None
                && c.airport_name is None
        }),
        ({
            let c = classified(ac, cfg, None);
            c.dst_km is None && c.bearing is None && c.airport is None && c.airport_name is None
        }),
{
}

/// A contact is overhead exactly where it is an aircraft, is not on the ground, is known to be
/// within the overhead radius, and is not known to be above the ceiling.
pub proof fn overhead_is_near_and_low(ac: Aircraft, cfg: Config, measure: Option<Measure>)
    ensures
        classified(ac, cfg, measure).overhead <==> ({
            &&& !is_surface(text_of(ac.category))
            &&& !(ac.alt_baro matches Some(Altitude::Ground))
            &&& ac.lat is Some && ac.lon is Some && measure is Some
            &&& !measure->0.dst_km.is_nan() && !cfg.overhead_radius_km.is_nan()
            &&& measure->0.dst_km.units() <= cfg.overhead_radius_km.units()
            &&& ac.alt_baro matches Some(Altitude::Feet(a)) ==> !a.is_nan()
                && !cfg.overhead_ceiling_ft.is_nan() && a.units() <= cfg.overhead_ceiling_ft.units()
        }),
{
}

proof fn lemma_bits(flags: u32)
    ensures
        is_military(flags) <==> flags & 1 != 0,
        is_marked(flags) <==> flags & 2 != 0,
{
    assert(flags % 2 == 1 <==> flags & 1 != 0) by (bit_vector);
    assert((flags / 2) % 2 == 1 <==> flags & 2 != 0) by (bit_vector);
}

proof fn lemma_first_match(entries: Seq<Seq<char>>, type_code: Seq<char>, callsign: Seq<char>)
    ensures
        first_match(entries, type_code, callsign) is Some <==> exists|k: int|
            0 <= k < entries.len() && entry_matches(#[trigger] entries[k], type_code, callsign),
        first_match(entries, type_code, callsign) matches Some(w) ==> exists|k: int|
            {
                &&& 0 <= k < entries.len()
                &&& #[trigger] entries[k] == w
                &&& entry_matches(w, type_code, callsign)
                &&& forall|j: int|
                    0 <= j < k ==> !entry_matches(#[trigger] entries[j], type_code, callsign)
            },
    decreases entries.len(),
{
    if entries.len() > 0 {
        let rest = entries.skip(1);
        assert forall|j: int| 0 <= j < rest.len() implies #[trigger] rest[j] == entries[j + 1] by {}
        if !entry_matches(entries[0], type_code, callsign) {
            lemma_first_match(rest, type_code, callsign);
            if let Some(w) = first_match(rest, type_code, callsign) {
                let k = choose|k: int|
                    {
                        &&& 0 <= k < rest.len()
                        &&& #[trigger] rest[k] == w
                        &&& entry_matches(w, type_code, callsign)
                        &&& forall|j: int|
                            0 <= j < k ==> !entry_matches(#[trigger] rest[j], type_code, callsign)
                    };
                assert(entries[k + 1] == w);
                assert forall|j: int| 0 <= j < k + 1 implies !entry_matches(
                    #[trigger] entries[j],
                    type_code,
                    callsign,
                ) by {
                    if j > 0 {
                        assert(rest[j - 1] == entries[j]);
                    }
                }
            } else if exists|k: int|
                0 <= k < entries.len() && entry_matches(#[trigger] entries[k], type_code, callsign) {
                let k = choose|k: int|
                    0 <= k < entries.len() && entry_matches(
                        #[trigger] entries[k],
                        type_code,
                        callsign,
                    );
                assert(rest[k - 1] == entries[k]);
            }
        } else {
            assert(entries[0] == entries[0]);
        }
    }
}

/// The watchlist goes by its first entry that fits. An entry, without the white space around it
/// and whatever its case, fits where it is the type code of the contact, or where it ends in `*`
/// and what stands before that, which is not empty, begins the callsign.
pub proof fn watchlist_goes_by_the_first_entry_that_fits(ac: Aircraft, cfg: Config)
    ensures
        ({
            let t = if ac.t is Some {
                upper(trimmed(ac.t->0@))
            } else {
                Seq::<char>::empty()
            };
            let f = if ac.flight is Some {
                upper(trimmed(ac.flight->0@))
            } else {
                Seq::<char>::empty()
            };
            let fits = |w: Seq<char>|
                w.len() > 0 && (if w[w.len() - 1] == '*' {
                    w.len() > 1 && w.len() - 1 <= f.len() && w.take(w.len() - 1) == f.take(
                        w.len() - 1,
                    )
                } else {
                    w == t
                });
            &&& watched(ac, cfg) is None <==> forall|k: int|
                0 <= k < cfg.watchlist@.len() ==> !fits(upper(trimmed((#[trigger] cfg.watchlist@[k])@)))
            &&& watched(ac, cfg) matches Some(w) ==> exists|k: int|
                {
                    &&& 0 <= k < cfg.watchlist@.len()
                    &&& w == upper(trimmed((#[trigger] cfg.watchlist@[k])@))
                    &&& fits(w)
                    &&& forall|j: int|
                        0 <= j < k ==> !fits(upper(trimmed((#[trigger] cfg.watchlist@[j])@)))
                }
        }),
{
    reveal_strlit("");
    let t = folded_option(text_of(ac.t));
    let f = folded_option(text_of(ac.flight));
    assert(folded(""@) =~= Seq::<char>::empty());
    let entries = folded_all(texts_of(cfg.watchlist@));
    lemma_first_match(entries, t, f);
    let fits = |w: Seq<char>|
        w.len() > 0 && (if w[w.len() - 1] == '*' {
            w.len() > 1 && w.len() - 1 <= f.len() && w.take(w.len() - 1) == f.take(w.len() - 1)
        } else {
            w == t
        });
    assert forall|w: Seq<char>| #[trigger] entry_matches(w, t, f) <==> fits(w) by {
        if w.len() > 0 {
            assert(w.drop_last() =~= w.take(w.len() - 1));
            if w.len() - 1 <= f.len() {
                assert(f.subrange(0, w.len() - 1) =~= f.take(w.len() - 1));
            }
        }
    }
    assert forall|k: int| 0 <= k < entries.len() implies #[trigger] entries[k] == upper(
        trimmed(cfg.watchlist@[k]@),
    ) by {}
    if watched(ac, cfg) is None {
        assert forall|k: int| 0 <= k < cfg.watchlist@.len() implies !fits(
            upper(trimmed((#[trigger] cfg.watchlist@[k])@)),
        ) by {
            assert(!entry_matches(entries[k], t, f));
        }
    } else {
        let w = watched(ac, cfg)->0;
        let k = choose|k: int|
            {
                &&& 0 <= k < entries.len()
                &&& #[trigger] entries[k] == w
                &&& entry_matches(w, t, f)
                &&& forall|j: int| 0 <= j < k ==> !entry_matches(#[trigger] entries[j], t, f)
            };
        assert(w == upper(trimmed(cfg.watchlist@[k]@)));
        assert forall|j: int| 0 <= j < k implies !fits(
            upper(trimmed((#[trigger] cfg.watchlist@[j])@)),
        ) by {
            assert(!entry_matches(entries[j], t, f));
        }
    }
}

/// A contact is interesting exactly where it is an aircraft that has the military bit or the mark
/// of the database set, whatever the other bits are, is a balloon, or is on the watchlist.
pub proof fn interest_has_four_grounds(ac: Aircraft, cfg: Config, measure: Option<Measure>)
    ensures
        ({
            let c = classified(ac, cfg, measure);
            c.interesting <==> !is_surface(text_of(ac.category)) && (c.db_flags & 1 != 0
                || c.db_flags & 2 != 0 || text_of(ac.category) == Some("B2"@) || watched(ac, cfg)
                is Some)
        }),
{
    lemma_bits(flags_of(ac));
}

/// A contact is an emergency exactly where it is an aircraft whose emergency field is neither
/// missing, empty nor "none", or whose squawk is one of the listed ones.
pub proof fn emergencies_are_declared_or_squawked(
    ac: Aircraft,
    cfg: Config,
    measure: Option<Measure>,
)
    ensures
        classified(ac, cfg, measure).is_emergency <==> ({
            &&& !is_surface(text_of(ac.category))
            &&& {
                ||| ac.emergency is Some && ac.emergency->0@.len() > 0 && ac.emergency->0@
                    != "none"@
                ||| ac.squawk is Some && exists|k: int|
                    0 <= k < cfg.emergency_squawks@.len() && (
                    #[trigger] cfg.emergency_squawks@[k])@ == ac.squawk->0@
            }
        }),
{
    let all = texts_of(cfg.emergency_squawks@);
    if let Some(s) = text_of(ac.squawk) {
        if all.contains(s) {
            let k = choose|k: int| 0 <= k < all.len() && all[k] == s;
            assert(cfg.emergency_squawks@[k]@ == s);
        }
        if exists|k: int|
            0 <= k < cfg.emergency_squawks@.len() && (#[trigger] cfg.emergency_squawks@[k])@ == s {
            let k = choose|k: int|
                0 <= k < cfg.emergency_squawks@.len() && (#[trigger] cfg.emergency_squawks@[k])@
                    == s;
            assert(all[k] == s);
        }
    }
}

proof fn lemma_joined_contains(a: Seq<Seq<char>>, b: Seq<Seq<char>>, t: Seq<char>)
    ensures
        (a + b).contains(t) <==> a.contains(t) || b.contains(t),
{
    let c = a + b;
    if a.contains(t) {
        let i = choose|i: int| 0 <= i < a.len() && a[i] == t;
        assert(c[i] == t);
    }
    if b.contains(t) {
        let i = choose|i: int| 0 <= i < b.len() && b[i] == t;
        assert(c[a.len() + i] == t);
    }
    if c.contains(t) {
        let i = choose|i: int| 0 <= i < c.len() && c[i] == t;
        if i < a.len() {
            assert(a[i] == t);
        } else {
            assert(b[i - a.len()] == t);
        }
    }
}

proof fn lemma_only_if(on: bool, s: Seq<char>, t: Seq<char>)
    ensures
        only_if(on, s).contains(t) <==> on && s == t,
{
    if on {
        assert(only_if(on, s)[0] == s);
    }
}

proof fn lemma_only_some(prefix: Seq<char>, s: Option<Seq<char>>, t: Seq<char>)
    ensures
        only_some(prefix, s).contains(t) <==> s is Some && prefix + s->0 == t,
        prefix.len() > 0 && only_some(prefix, s).contains(t) ==> t.len() > 0 && t[0] == prefix[0],
{
    if let Some(x) = s {
        assert(only_some(prefix, s)[0] == prefix + x);
    }
}

/// The reasons say why: for an aircraft, "overhead" stands there exactly where it is overhead,
/// "military" where the military bit is set, "interesting" where the mark of the database is set,
/// "balloon" where it is one, the watchlist entry where one fits, the declared emergency where
/// there is one, and the squawk where only a listed squawk makes it an emergency.
pub proof fn reasons_say_why(ac: Aircraft, cfg: Config, measure: Option<Measure>, x: Seq<char>)
    requires
        !is_surface(text_of(ac.category)),
    ensures
        ({
            let c = classified(ac, cfg, measure);
            let declared_now = ac.emergency is Some && ac.emergency->0@.len() > 0
                && ac.emergency->0@ != "none"@;
            &&& c.reasons.contains("overhead"@) <==> c.overhead
            &&& c.reasons.contains("military"@) <==> c.db_flags & 1 != 0
            &&& c.reasons.contains("interesting"@) <==> c.db_flags & 2 != 0
            &&& c.reasons.contains("balloon"@) <==> text_of(ac.category) == Some("B2"@)
            &&& c.reasons.contains("watchlist:"@ + x) <==> watched(ac, cfg) == Some(x)
            &&& c.reasons.contains("emergency:"@ + x) <==> declared_now && ac.emergency->0@ == x
            &&& c.reasons.contains("squawk:"@ + x) <==> !declared_now && c.is_emergency && text_of(
                ac.squawk,
            ) == Some(x)
        }),
{
    lemma_bits(flags_of(ac));
    emergencies_are_declared_or_squawked(ac, cfg, measure);
    reveal_strlit("overhead");
    reveal_strlit("military");
    reveal_strlit("interesting");
    reveal_strlit("balloon");
    reveal_strlit("watchlist:");
    reveal_strlit("emergency:");
    reveal_strlit("squawk:");
    assert("overhead"@[0] == 'o' && "military"@[0] == 'm' && "interesting"@[0] == 'i'
        && "balloon"@[0] == 'b' && "watchlist:"@[0] == 'w' && "emergency:"@[0] == 'e'
        && "squawk:"@[0] == 's');
    lemma_reasons_contain(ac, cfg, measure, "overhead"@);
    lemma_reasons_contain(ac, cfg, measure, "military"@);
    lemma_reasons_contain(ac, cfg, measure, "interesting"@);
    lemma_reasons_contain(ac, cfg, measure, "balloon"@);
    lemma_reasons_contain(ac, cfg, measure, "watchlist:"@ + x);
    lemma_reasons_contain(ac, cfg, measure, "emergency:"@ + x);
    lemma_reasons_contain(ac, cfg, measure, "squawk:"@ + x);
    lemma_same_rest("watchlist:"@, watched(ac, cfg), x);
    lemma_same_rest("emergency:"@, declared(text_of(ac.emergency)), x);
    lemma_same_rest("squawk:"@, backup_squawk(ac, cfg), x);
    assert(("watchlist:"@ + x)[0] == 'w');
    assert(("emergency:"@ + x)[0] == 'e');
    assert(("squawk:"@ + x)[0] == 's');
}

proof fn lemma_same_rest(prefix: Seq<char>, s: Option<Seq<char>>, x: Seq<char>)
    ensures
        (s is Some && prefix + s->0 == prefix + x) <==> s == Some(x),
{
    if s is Some && prefix + s->0 == prefix + x {
        let a = prefix + s->0;
        let b = prefix + x;
        assert(a.skip(prefix.len() as int) =~= s->0);
        assert(b.skip(prefix.len() as int) =~= x);
    }
}

proof fn lemma_reasons_contain(
    ac: Aircraft,
    cfg: Config,
    measure: Option<Measure>,
    t: Seq<char>,
)
    requires
        !is_surface(text_of(ac.category)),
    ensures
        reasons_for(ac, cfg, measure).contains(t) <==> {
            ||| is_overhead(ac, cfg, measure) && "overhead"@ == t
            ||| is_military(flags_of(ac)) && "military"@ == t
            ||| is_marked(flags_of(ac)) && "interesting"@ == t
            ||| text_of(ac.category) == Some("B2"@) && "balloon"@ == t
            ||| watched(ac, cfg) is Some && "watchlist:"@ + watched(ac, cfg)->0 == t
            ||| declared(text_of(ac.emergency)) is Some && "emergency:"@ + declared(
                text_of(ac.emergency),
            )->0 == t
            ||| backup_squawk(ac, cfg) is Some && "squawk:"@ + backup_squawk(ac, cfg)->0 == t
        },
        watched(ac, cfg) is Some ==> ("watchlist:"@ + watched(ac, cfg)->0)[0] == "watchlist:"@[0],
        declared(text_of(ac.emergency)) is Some ==> ("emergency:"@ + declared(
            text_of(ac.emergency),
        )->0)[0] == "emergency:"@[0],
        backup_squawk(ac, cfg) is Some ==> ("squawk:"@ + backup_squawk(ac, cfg)->0)[0]
            == "squawk:"@[0],
{
    reveal_strlit("watchlist:");
    reveal_strlit("emergency:");
    reveal_strlit("squawk:");
    let a = only_if(is_overhead(ac, cfg, measure), "overhead"@);
    let b = only_if(is_military(flags_of(ac)), "military"@);
    let c = only_if(is_marked(flags_of(ac)), "interesting"@);
    let d = only_if(text_of(ac.category) == Some("B2"@), "balloon"@);
    let e = only_some("watchlist:"@, watched(ac, cfg));
    let f = only_some("emergency:"@, declared(text_of(ac.emergency)));
    let g = only_some("squawk:"@, backup_squawk(ac, cfg));
    assert(reasons_for(ac, cfg, measure) == a + b + c + d + e + f + g);
    lemma_joined_contains(a, b, t);
    lemma_joined_contains(a + b, c, t);
    lemma_joined_contains(a + b + c, d, t);
    lemma_joined_contains(a + b + c + d, e, t);
    lemma_joined_contains(a + b + c + d + e, f, t);
    lemma_joined_contains(a + b + c + d + e + f, g, t);
    lemma_only_if(is_overhead(ac, cfg, measure), "overhead"@, t);
    lemma_only_if(is_military(flags_of(ac)), "military"@, t);
    lemma_only_if(is_marked(flags_of(ac)), "interesting"@, t);
    lemma_only_if(text_of(ac.category) == Some("B2"@), "balloon"@, t);
    lemma_only_some("watchlist:"@, watched(ac, cfg), t);
    lemma_only_some("emergency:"@, declared(text_of(ac.emergency)), t);
    lemma_only_some("squawk:"@, backup_squawk(ac, cfg), t);
}

/// The order in which reasons are listed, by the letter that they begin with.
pub open spec fn reason_rank(reason: Seq<char>) -> int {
    if reason[0] == 'o' {
        0
    } else if reason[0] == 'm' {
        1
    } else if reason[0] == 'i' {
        2
    } else if reason[0] == 'b' {
        3
    } else if reason[0] == 'w' {
        4
    } else if reason[0] == 'e' {
        5
    } else {
        6
    }
}

spec fn ranked_below(s: Seq<Seq<char>>, limit: int) -> bool {
    &&& forall|i: int| 0 <= i < s.len() ==> reason_rank(#[trigger] s[i]) < limit
    &&& forall|i: int, j: int|
        0 <= i < j < s.len() ==> reason_rank(#[trigger] s[i]) < reason_rank(#[trigger] s[j])
}

proof fn lemma_ranked_below(s: Seq<Seq<char>>, more: Seq<Seq<char>>, limit: int)
    requires
        ranked_below(s, limit),
        more.len() <= 1,
        more.len() == 1 ==> reason_rank(more[0]) == limit,
    ensures
        ranked_below(s + more, limit + 1),
{
    let all = s + more;
    assert forall|i: int, j: int| 0 <= i < j < all.len() implies reason_rank(#[trigger] all[i])
        < reason_rank(#[trigger] all[j]) by {
        assert(all[i] == s[i]);
        if j < s.len() {
            assert(all[j] == s[j]);
        } else {
            assert(all[j] == more[0]);
        }
    }
    assert forall|i: int| 0 <= i < all.len() implies reason_rank(#[trigger] all[i]) < limit + 1 by {
        if i < s.len() {
            assert(all[i] == s[i]);
        } else {
            assert(all[i] == more[0]);
        }
    }
}

/// The reasons are listed in a fixed order, none twice: overhead, military, interesting, balloon,
/// watchlist, emergency, squawk.
pub proof fn reasons_are_in_order(ac: Aircraft, cfg: Config, measure: Option<Measure>)
    ensures
        ({
            let r = classified(ac, cfg, measure).reasons;
            forall|i: int, j: int|
                0 <= i < j < r.len() ==> reason_rank(#[trigger] r[i]) < reason_rank(#[trigger] r[j])
        }),
{
    if !is_surface(text_of(ac.category)) {
        reveal_strlit("overhead");
        reveal_strlit("military");
        reveal_strlit("interesting");
        reveal_strlit("balloon");
        reveal_strlit("watchlist:");
        reveal_strlit("emergency:");
        reveal_strlit("squawk:");
        let a = only_if(is_overhead(ac, cfg, measure), "overhead"@);
        let b = only_if(is_military(flags_of(ac)), "military"@);
        let c = only_if(is_marked(flags_of(ac)), "interesting"@);
        let d = only_if(text_of(ac.category) == Some("B2"@), "balloon"@);
        let e = only_some("watchlist:"@, watched(ac, cfg));
        let f = only_some("emergency:"@, declared(text_of(ac.emergency)));
        let g = only_some("squawk:"@, backup_squawk(ac, cfg));
        assert(reasons_for(ac, cfg, measure) == a + b + c + d + e + f + g);
        assert(ranked_below(Seq::<Seq<char>>::empty(), 0));
        assert(Seq::<Seq<char>>::empty() + a =~= a);
        lemma_ranked_below(Seq::empty(), a, 0);
        lemma_ranked_below(a, b, 1);
        lemma_ranked_below(a + b, c, 2);
        lemma_ranked_below(a + b + c, d, 3);
        lemma_ranked_below(a + b + c + d, e, 4);
        lemma_ranked_below(a + b + c + d + e, f, 5);
        lemma_ranked_below(a + b + c + d + e + f, g, 6);
    }
}

/// The operator of a contact is that of its callsign as it was received, with the military bit
/// of its flags as the fallback.
pub proof fn operators_follow_the_callsign(ac: Aircraft, cfg: Config, measure: Option<Measure>)
    ensures
        ac.flight is Some ==> classified(ac, cfg, measure).operator == operator_name(
            Some(ac.flight->0@),
            classified(ac, cfg, measure).db_flags & 1 != 0,
        ),
        ac.flight is None ==> classified(ac, cfg, measure).operator == (if classified(
            ac,
            cfg,
            measure,
        ).db_flags & 1 != 0 {
            Some("Military"@)
        } else {
            None
        }),
{
    lemma_bits(flags_of(ac));
}

} // verus!
