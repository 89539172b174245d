//! The words of an alert.
use vstd::prelude::*;

use crate::alerts::AlertClass;
use crate::classify::{compass, compass_points, declared, Contact, UiAircraft};
use crate::feeds::{Altitude, AltitudeView};
use crate::number::{decimal, to_decimal};
use crate::sighting::{callsign_of, or_else};
use crate::text::{join, same_text, strip_prefix, stripped, text_of, texts_of};

verus! {

/// One alert, in words.
#[derive(Clone, Debug)]
pub struct Toast {
    /// The name of the alert class.
    pub class: String,
    pub title: String,
    pub body: String,
    /// The contact that the alert is about.
    pub hex: String,
}

/// One alert, over character sequences.
pub ghost struct ToastView {
    pub class: Seq<char>,
    pub title: Seq<char>,
    pub body: Seq<char>,
    pub hex: Seq<char>,
}

impl View for Toast {
    type V = ToastView;

    open spec fn view(&self) -> ToastView {
        ToastView { class: self.class@, title: self.title@, body: self.body@, hex: self.hex@ }
    }
}

/// An altitude in words: whole feet, the ground with the airport where it is known, or unknown.
pub open spec fn altitude_text(c: Contact) -> Seq<char> {
    match c.alt_baro {
        Some(AltitudeView::Feet(x)) => decimal(x.whole()) + " ft"@,
        Some(AltitudeView::Ground) => match c.airport {
            Some(code) => "on ground @ "@ + code,
            None => "on ground"@,
        },
        _ => "alt ?"@,
    }
}

/// What a reason says as a headline, or `None` where it makes none.
pub open spec fn reason_headline(reason: Seq<char>) -> Option<Seq<char>> {
    if reason == "military"@ {
        Some("Military traffic"@)
    } else if reason == "balloon"@ {
        Some("Balloon"@)
    } else if reason == "interesting"@ {
        Some("Interesting aircraft"@)
    } else {
        match stripped(reason, "watchlist:"@) {
            Some(w) => Some("Watchlist "@ + w),
            None => None,
        }
    }
}

/// The headline of the first reason that makes one, or `None` where none does.
pub open spec fn first_headline(reasons: Seq<Seq<char>>) -> Option<Seq<char>>
    decreases reasons.len(),
{
    if reasons.len() == 0 {
        None
    } else if reason_headline(reasons[0]) is Some {
        reason_headline(reasons[0])
    } else {
        first_headline(reasons.skip(1))
    }
}

/// The headline of a contact.
pub open spec fn headline(c: Contact) -> Seq<char> {
    match first_headline(c.reasons) {
        Some(h) => h,
        None => if c.overhead {
            "Overhead"@
        } else {
            "Nearby traffic"@
        },
    }
}

/// The first of the texts that is there; the last one always is.
pub open spec fn first_known(
    a: Option<Seq<char>>,
    b: Option<Seq<char>>,
    otherwise: Seq<char>,
) -> Seq<char> {
    match or_else(a, b) {
        Some(s) => s,
        None => otherwise,
    }
}

/// What a contact is called: its callsign, else its registration, else its address.
pub open spec fn called(c: Contact) -> Seq<char> {
    first_known(callsign_of(c), c.reg, c.hex)
}

/// Where a contact is, from its rounded distance and the compass sector of its bearing.
pub open spec fn whereabouts(c: Contact, km: Seq<char>, sector: usize) -> Seq<char> {
    if c.dst_km is Some && c.bearing is Some {
        km + " km "@ + compass_points()[sector as int % 8]
    } else {
        "position unknown"@
    }
}

/// The line that describes a contact.
pub open spec fn description(c: Contact, km: Seq<char>, sector: usize) -> Seq<char> {
    called(c) + " · "@ + first_known(c.t, c.desc, "type ?"@) + " · "@ + altitude_text(c) + " · "@
        + whereabouts(c, km, sector)
}

/// What the emergency of a contact is: the declared one, else its squawk.
pub open spec fn predicament(c: Contact) -> Seq<char> {
    match (declared(c.emergency), c.squawk) {
        (Some(e), _) => e,
        (None, Some(s)) => "squawk "@ + s,
        (None, None) => "emergency"@,
    }
}

/// The words of an alert about a contact that came through `feed`.
pub open spec fn worded(
    class: AlertClass,
    c: Contact,
    feed: Seq<char>,
    km: Seq<char>,
    sector: usize,
) -> ToastView {
    match class {
        AlertClass::Interesting => ToastView {
            class: "interesting"@,
            title: "✈ "@ + headline(c),
            body: description(c, km, sector),
            hex: c.hex,
        },
        AlertClass::Emergency => ToastView {
            class: "emergency"@,
            title: "🚨 EMERGENCY — "@ + predicament(c),
            body: description(c, km, sector) + " · via "@ + feed,
            hex: c.hex,
        },
    }
}

/// An altitude in words.
pub fn fmt_alt(a: &UiAircraft) -> (r: String)
    ensures
        r@ == altitude_text(a@),
{
    match &a.alt_baro {
        Some(Altitude::Feet(x)) => join(to_decimal(x.to_whole()).as_str(), " ft"),
        Some(Altitude::Ground) => match &a.airport {
            Some(code) => join("on ground @ ", code.as_str()),
            None => "on ground".to_owned(),
        },
        _ => "alt ?".to_owned(),
    }
}

fn headline_of(reason: &str) -> (r: Option<String>)
    ensures
        text_of(r) == reason_headline(reason@),
{
    if same_text(reason, "military") {
        Some("Military traffic".to_owned())
    } else if same_text(reason, "balloon") {
        Some("Balloon".to_owned())
    } else if same_text(reason, "interesting") {
        Some("Interesting aircraft".to_owned())
    } else {
        match strip_prefix(reason, "watchlist:") {
            Some(w) => Some(join("Watchlist ", w.as_str())),
            None => None,
        }
    }
}

/// The headline of a contact.
pub fn primary_reason(a: &UiAircraft) -> (r: String)
    ensures
        r@ == headline(a@),
{
    let ghost all = texts_of(a.reasons@);
    let n: usize = a.reasons.len();
    let mut i: usize = 0;
    assert(all.skip(0) == all);
    while i < n
        invariant
            n == a.reasons@.len(),
            i <= n,
            all == texts_of(a.reasons@),
            first_headline(all) == first_headline(all.skip(i as int)),
        decreases n - i,
    {
        assert(all.skip(i as int)[0] == a.reasons@[i as int]@);
        if let Some(h) = headline_of(a.reasons[i].as_str()) {
            return h;
        }
        assert(all.skip(i as int).skip(1) == all.skip(i + 1));
        i += 1;
    }
    if a.overhead {
        "Overhead".to_owned()
    } else {
        "Nearby traffic".to_owned()
    }
}

fn name_of(a: &UiAircraft) -> (r: String)
    ensures
        r@ == called(a@),
{
    if let Some(f) = &a.flight {
        if !f.as_str().is_empty() {
            return f.clone();
        }
    }
    match &a.reg {
        Some(reg) => reg.clone(),
        None => a.hex.clone(),
    }
}

fn type_label(a: &UiAircraft) -> (r: String)
    ensures
        r@ == first_known(a@.t, a@.desc, "type ?"@),
{
    match (&a.t, &a.desc) {
        (Some(t), _) => t.clone(),
        (None, Some(d)) => d.clone(),
        (None, None) => "type ?".to_owned(),
    }
}

fn place(a: &UiAircraft, km: &str, sector: usize) -> (r: String)
    ensures
        r@ == whereabouts(a@, km@, sector),
{
    if a.dst_km.is_some() && a.bearing.is_some() {
        join(join(km, " km ").as_str(), compass(sector))
    } else {
        "position unknown".to_owned()
    }
}

fn describe(a: &UiAircraft, km: &str, sector: usize) -> (r: String)
    ensures
        r@ == description(a@, km@, sector),
{
    let mut s: String = join(name_of(a).as_str(), " · ");
    s = join(s.as_str(), type_label(a).as_str());
    s = join(s.as_str(), " · ");
    s = join(s.as_str(), fmt_alt(a).as_str());
    s = join(s.as_str(), " · ");
    join(s.as_str(), place(a, km, sector).as_str())
}

fn trouble(a: &UiAircraft) -> (r: String)
    ensures
        r@ == predicament(a@),
{
    if let Some(e) = &a.emergency {
        if !e.as_str().is_empty() && !same_text(e.as_str(), "none") {
            return e.clone();
        }
    }
    match &a.squawk {
        Some(s) => join("squawk ", s.as_str()),
        None => "emergency".to_owned(),
    }
}

/// The words of an alert. `km` is the rounded distance and `sector` the compass sector of the
/// bearing; both are used only for a contact whose position is known.
pub fn toast(class: AlertClass, a: &UiAircraft, feed: &str, km: &str, sector: usize) -> (r: Toast)
    ensures
        r@ == worded(class, a@, feed@, km@, sector),
{
    let line: String = describe(a, km, sector);
    match class {
        AlertClass::Interesting => Toast {
            class: "interesting".to_owned(),
            title: join("✈ ", primary_reason(a).as_str()),
            body: line,
            hex: a.hex.clone(),
        },
        AlertClass::Emergency => Toast {
            class: "emergency".to_owned(),
            title: join("🚨 EMERGENCY — ", trouble(a).as_str()),
            body: join(join(line.as_str(), " · via ").as_str(), feed),
            hex: a.hex.clone(),
        },
    }
}

/// An alert about a contact that is not there, to see that alerts are shown.
pub fn test_toast() -> (r: Toast)
    ensures
        r.class@ == "interesting"@,
        r.title@ == "✈ Test contact"@,
        r.body@ == "RADAR1 · B738 · 2,500 ft · 1 km N — toasts are working"@,
        r.hex@ == "test"@,
{
    Toast {
        class: "interesting".to_owned(),
        title: "✈ Test contact".to_owned(),
        body: "RADAR1 · B738 · 2,500 ft · 1 km N — toasts are working".to_owned(),
        hex: "test".to_owned(),
    }
}

/// The line of an alert gives four things, in this order: the callsign, else the registration,
/// else the address; the type code, else its description; the altitude, or the ground and its
/// airport; and the distance with the point of the compass, where both are known. An emergency
/// adds the feed that it came through.
pub proof fn alerts_describe_the_contact(
    c: Contact,
    feed: Seq<char>,
    km: Seq<char>,
    sector: usize,
    name: Seq<char>,
    kind: Seq<char>,
    height: Seq<char>,
    place: Seq<char>,
)
    requires
        c.flight is Some && c.flight->0.len() > 0 ==> name == c.flight->0,
        (c.flight is None || c.flight->0.len() == 0) && c.reg is Some ==> name == c.reg->0,
        (c.flight is None || c.flight->0.len() == 0) && c.reg is None ==> name == c.hex,
        c.t is Some ==> kind == c.t->0,
        c.t is None && c.desc is Some ==> kind == c.desc->0,
        c.t is None && c.desc is None ==> kind == "type ?"@,
        c.alt_baro is Some && c.alt_baro->0 is Feet ==> height == decimal(
            c.alt_baro->0->Feet_0.whole(),
        ) + " ft"@,
        c.alt_baro is Some && c.alt_baro->0 is Ground && c.airport is Some ==> height
            == "on ground @ "@ + c.airport->0,
        c.alt_baro is Some && c.alt_baro->0 is Ground && c.airport is None ==> height
            == "on ground"@,
        c.alt_baro is None || c.alt_baro->0 is Other ==> height == "alt ?"@,
        c.dst_km is Some && c.bearing is Some && sector % 8 == 0 ==> place == km + " km "@ + "N"@,
        c.dst_km is Some && c.bearing is Some && sector % 8 == 1 ==> place == km + " km "@ + "NE"@,
        c.dst_km is Some && c.bearing is Some && sector % 8 == 2 ==> place == km + " km "@ + "E"@,
        c.dst_km is Some && c.bearing is Some && sector % 8 == 3 ==> place == km + " km "@ + "SE"@,
        c.dst_km is Some && c.bearing is Some && sector % 8 == 4 ==> place == km + " km "@ + "S"@,
        c.dst_km is Some && c.bearing is Some && sector % 8 == 5 ==> place == km + " km "@ + "SW"@,
        c.dst_km is Some && c.bearing is Some && sector % 8 == 6 ==> place == km + " km "@ + "W"@,
        c.dst_km is Some && c.bearing is Some && sector % 8 == 7 ==> place == km + " km "@ + "NW"@,
        c.dst_km is None || c.bearing is None ==> place == "position unknown"@,
    ensures
        worded(AlertClass::Interesting, c, feed, km, sector).body == name + " · "@ + kind + " · "@
            + height + " · "@ + place,
        worded(AlertClass::Emergency, c, feed, km, sector).body == name + " · "@ + kind + " · "@
            + height + " · "@ + place + " · via "@ + feed,
        worded(AlertClass::Interesting, c, feed, km, sector).hex == c.hex,
        worded(AlertClass::Emergency, c, feed, km, sector).hex == c.hex,
        worded(AlertClass::Interesting, c, feed, km, sector).class == "interesting"@,
        worded(AlertClass::Emergency, c, feed, km, sector).class == "emergency"@,
{
    let s = sector as int % 8;
    assert(s == sector % 8);
    assert(0 <= s < 8);
}

/// An emergency is announced with what was declared, unless that is empty or says "none"; else
/// with its squawk; else as an emergency.
pub proof fn emergencies_are_announced_by_declaration(
    c: Contact,
    feed: Seq<char>,
    km: Seq<char>,
    sector: usize,
)
    ensures
        ({
            let title = worded(AlertClass::Emergency, c, feed, km, sector).title;
            let said = c.emergency is Some && c.emergency->0.len() > 0 && c.emergency->0
                != "none"@;
            &&& said ==> title == "🚨 EMERGENCY — "@ + c.emergency->0
            &&& !said && c.squawk is Some ==> title == "🚨 EMERGENCY — "@ + ("squawk "@
                + c.squawk->0)
            &&& !said && c.squawk is None ==> title == "🚨 EMERGENCY — "@ + "emergency"@
        }),
{
}

proof fn lemma_past_headlines(reasons: Seq<Seq<char>>, k: int)
    requires
        0 <= k <= reasons.len(),
        forall|j: int| 0 <= j < k ==> reason_headline(#[trigger] reasons[j]) is None,
    ensures
        first_headline(reasons) == first_headline(reasons.skip(k)),
    decreases k,
{
    assert(reasons.skip(0) == reasons);
    if k > 0 {
        lemma_past_headlines(reasons, k - 1);
        assert(reasons.skip(k - 1).skip(1) == reasons.skip(k));
        assert(reasons.skip(k - 1)[0] == reasons[k - 1]);
        assert(reason_headline(reasons[k - 1]) is None);
    }
}

/// An interesting contact is announced with its first reason of interest: military, balloon,
/// interesting, or an entry of the watchlist. Without one it is announced as overhead where it is,
/// and as nearby traffic where it is not.
pub proof fn interest_is_announced_by_first_reason(
    c: Contact,
    feed: Seq<char>,
    km: Seq<char>,
    sector: usize,
    k: int,
    entry: Seq<char>,
)
    requires
        0 <= k <= c.reasons.len(),
        forall|j: int|
            0 <= j < k ==> (#[trigger] c.reasons[j]) != "military"@ && c.reasons[j] != "balloon"@
                && c.reasons[j] != "interesting"@ && !"watchlist:"@.is_prefix_of(c.reasons[j]),
    ensures
        ({
            let title = worded(AlertClass::Interesting, c, feed, km, sector).title;
            &&& k < c.reasons.len() && c.reasons[k] == "military"@ ==> title == "✈ "@
                + "Military traffic"@
            &&& k < c.reasons.len() && c.reasons[k] == "balloon"@ ==> title == "✈ "@ + "Balloon"@
            &&& k < c.reasons.len() && c.reasons[k] == "interesting"@ ==> title == "✈ "@
                + "Interesting aircraft"@
            &&& k < c.reasons.len() && c.reasons[k] == "watchlist:"@ + entry ==> title == "✈ "@ + (
            "Watchlist "@ + entry)
            &&& k == c.reasons.len() && c.overhead ==> title == "✈ "@ + "Overhead"@
            &&& k == c.reasons.len() && !c.overhead ==> title == "✈ "@ + "Nearby traffic"@
        }),
{
    assert forall|j: int| 0 <= j < k implies reason_headline(#[trigger] c.reasons[j]) is None by {}
    lemma_past_headlines(c.reasons, k);
    if k < c.reasons.len() {
        assert(c.reasons.skip(k)[0] == c.reasons[k]);
        reveal_strlit("military");
        reveal_strlit("balloon");
        reveal_strlit("watchlist:");
        reveal_strlit("interesting");
        assert("military"@[0] == 'm' && "balloon"@[0] == 'b' && "watchlist:"@[0] == 'w'
            && "interesting"@[0] == 'i');
        if c.reasons[k] == "watchlist:"@ + entry {
            assert(c.reasons[k][0] == 'w');
            assert("watchlist:"@.is_prefix_of(c.reasons[k]));
            assert(c.reasons[k].skip(10) =~= entry);
        }
    }
}

} // verus!
