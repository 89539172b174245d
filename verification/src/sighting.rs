//! One row of the sightings log.
use vstd::prelude::*;

use crate::classify::{Contact, UiAircraft};
use crate::double::Double;
use crate::feeds::{Altitude, AltitudeView};
use crate::text::{
    copy_text, join, same_text, strip_prefix, stripped, text_of, texts_of, to_upper, upper,
};

verus! {

/// What the log holds of one airframe. Times are Unix seconds.
#[derive(Debug)]
pub struct Sighting {
    pub hex: String,
    pub first_seen_at: i64,
    pub last_seen_at: i64,
    pub registration: Option<String>,
    pub type_code: Option<String>,
    pub type_desc: Option<String>,
    pub operator: Option<String>,
    pub callsign: Option<String>,
    pub squawk: Option<String>,
    pub notable: bool,
    pub notable_reason: Option<String>,
    /// When the user caught it.
    pub caught_at: Option<i64>,
    pub lat: Option<Double>,
    pub lon: Option<Double>,
    pub alt: Option<i64>,
    pub seen_count: i64,
}

/// A row of the log, over character sequences.
#[verifier::ext_equal]
pub ghost struct Row {
    pub hex: Seq<char>,
    pub first_seen_at: i64,
    pub last_seen_at: i64,
    pub registration: Option<Seq<char>>,
    pub type_code: Option<Seq<char>>,
    pub type_desc: Option<Seq<char>>,
    pub operator: Option<Seq<char>>,
    pub callsign: Option<Seq<char>>,
    pub squawk: Option<Seq<char>>,
    pub notable: bool,
    pub notable_reason: Option<Seq<char>>,
    pub caught_at: Option<i64>,
    pub lat: Option<Double>,
    pub lon: Option<Double>,
    pub alt: Option<i64>,
    pub seen_count: i64,
}

impl View for Sighting {
    type V = Row;

    open spec fn view(&self) -> Row {
        Row {
            hex: self.hex@,
            first_seen_at: self.first_seen_at,
            last_seen_at: self.last_seen_at,
            registration: text_of(self.registration),
            type_code: text_of(self.type_code),
            type_desc: text_of(self.type_desc),
            operator: text_of(self.operator),
            callsign: text_of(self.callsign),
            squawk: text_of(self.squawk),
            notable: self.notable,
            notable_reason: text_of(self.notable_reason),
            caught_at: self.caught_at,
            lat: self.lat,
            lon: self.lon,
            alt: self.alt,
            seen_count: self.seen_count,
        }
    }
}

/// The views of a list of rows.
pub open spec fn row_views(rows: Seq<Sighting>) -> Seq<Row> {
    rows.map_values(|s: Sighting| s@)
}

/// The caught rows, in log order.
pub open spec fn dex_rows(log: Seq<Row>) -> Seq<Row>
    decreases log.len(),
{
    if log.len() == 0 {
        Seq::empty()
    } else if log.last().caught_at is Some {
        dex_rows(log.drop_last()).push(log.last())
    } else {
        dex_rows(log.drop_last())
    }
}

/// The known type codes, one for each row that has one, in log order.
pub open spec fn known_types(log: Seq<Row>) -> Seq<Seq<char>>
    decreases log.len(),
{
    if log.len() == 0 {
        Seq::empty()
    } else {
        let rest = known_types(log.drop_last());
        match log.last().type_code {
            Some(t) => if t.len() > 0 {
                rest.push(t)
            } else {
                rest
            },
            None => rest,
        }
    }
}

/// Whole feet of a reported altitude: zero on the ground, nothing where it is not known.
pub open spec fn altitude_feet(a: Option<AltitudeView>) -> Option<i64> {
    match a {
        Some(AltitudeView::Feet(x)) => Some(x.whole() as i64),
        Some(AltitudeView::Ground) => Some(0),
        _ => None,
    }
}

/// The first reason that speaks of an emergency.
pub open spec fn emergency_reason(reasons: Seq<Seq<char>>) -> Seq<char>
    decreases reasons.len(),
{
    if reasons.len() == 0 {
        "EMERGENCY"@
    } else if stripped(reasons[0], "emergency:"@) is Some {
        upper(stripped(reasons[0], "emergency:"@)->0)
    } else if stripped(reasons[0], "squawk:"@) is Some {
        "SQK "@ + stripped(reasons[0], "squawk:"@)->0
    } else {
        emergency_reason(reasons.skip(1))
    }
}

/// The first reason that speaks of interest.
pub open spec fn interest_reason(reasons: Seq<Seq<char>>) -> Seq<char>
    decreases reasons.len(),
{
    if reasons.len() == 0 {
        "interesting"@
    } else if reasons[0] == "military"@ {
        "military"@
    } else if reasons[0] == "balloon"@ {
        "balloon"@
    } else if stripped(reasons[0], "watchlist:"@) is Some {
        "watch "@ + stripped(reasons[0], "watchlist:"@)->0
    } else if reasons[0] == "interesting"@ {
        "interesting"@
    } else {
        interest_reason(reasons.skip(1))
    }
}

/// The single most salient reason why a contact is notable, or `None` for ordinary traffic.
/// Emergencies rank above interest.
pub open spec fn salient_reason(c: Contact) -> Option<Seq<char>> {
    if c.is_emergency {
        Some(emergency_reason(c.reasons))
    } else if c.interesting {
        Some(interest_reason(c.reasons))
    } else {
        None
    }
}

/// `a`, or `b` where `a` is absent.
pub open spec fn or_else<T>(a: Option<T>, b: Option<T>) -> Option<T> {
    if a is Some {
        a
    } else {
        b
    }
}

/// The callsign of a contact; an empty one counts as none.
pub open spec fn callsign_of(c: Contact) -> Option<Seq<char>> {
    match c.flight {
        Some(f) => if f.len() > 0 {
            Some(f)
        } else {
            None
        },
        None => None,
    }
}

/// A coordinate as the log takes it: a pattern that is no number counts as none.
pub open spec fn coordinate(x: Option<Double>) -> Option<Double> {
    match x {
        Some(x) => if x.is_nan() {
            None
        } else {
            Some(x)
        },
        None => None,
    }
}

/// The row of a contact that is seen for the first time.
pub open spec fn first_row(c: Contact, now: i64) -> Row {
    Row {
        hex: c.hex,
        first_seen_at: now,
        last_seen_at: now,
        registration: c.reg,
        type_code: c.t,
        type_desc: c.desc,
        operator: c.operator,
        callsign: callsign_of(c),
        squawk: c.squawk,
        notable: salient_reason(c) is Some,
        notable_reason: salient_reason(c),
        caught_at: None,
        lat: coordinate(c.lat),
        lon: coordinate(c.lon),
        alt: altitude_feet(c.alt_baro),
        seen_count: 1,
    }
}

/// The row of a contact that is seen again: what it reports replaces what is known, what it
/// does not report stays, the squawk is always the latest, and the notable flag latches on.
pub open spec fn next_row(row: Row, c: Contact, now: i64) -> Row {
    Row {
        hex: row.hex,
        first_seen_at: row.first_seen_at,
        last_seen_at: now,
        registration: or_else(c.reg, row.registration),
        type_code: or_else(c.t, row.type_code),
        type_desc: or_else(c.desc, row.type_desc),
        operator: or_else(c.operator, row.operator),
        callsign: or_else(callsign_of(c), row.callsign),
        squawk: c.squawk,
        notable: row.notable || salient_reason(c) is Some,
        notable_reason: or_else(salient_reason(c), row.notable_reason),
        caught_at: row.caught_at,
        lat: or_else(coordinate(c.lat), row.lat),
        lon: or_else(coordinate(c.lon), row.lon),
        alt: or_else(altitude_feet(c.alt_baro), row.alt),
        seen_count: if row.seen_count < i64::MAX {
            (row.seen_count + 1) as i64
        } else {
            i64::MAX
        },
    }
}

/// Whole feet of a contact's altitude: zero on the ground, nothing where it is not known.
pub fn alt_ft(a: &UiAircraft) -> (r: Option<i64>)
    ensures
        r == altitude_feet(a@.alt_baro),
{
    match &a.alt_baro {
        Some(Altitude::Feet(x)) => Some(x.to_whole()),
        Some(Altitude::Ground) => Some(0),
        _ => None,
    }
}

/// The single most salient reason why a contact is notable, or `None` for ordinary traffic.
pub fn notable_reason(a: &UiAircraft) -> (r: Option<String>)
    ensures
        text_of(r) == salient_reason(a@),
{
    if a.is_emergency {
        Some(emergency_text(&a.reasons))
    } else if a.interesting {
        Some(interest_text(&a.reasons))
    } else {
        None
    }
}

fn emergency_text(reasons: &Vec<String>) -> (r: String)
    ensures
        r@ == emergency_reason(texts_of(reasons@)),
{
    let ghost all = texts_of(reasons@);
    let n: usize = reasons.len();
    let mut i: usize = 0;
    assert(all.skip(0) == all);
    while i < n
        invariant
            n == reasons@.len(),
            i <= n,
            all == texts_of(reasons@),
            emergency_reason(all) == emergency_reason(all.skip(i as int)),
        decreases n - i,
    {
        assert(all.skip(i as int)[0] == reasons@[i as int]@);
        if let Some(e) = strip_prefix(reasons[i].as_str(), "emergency:") {
            return to_upper(e.as_str());
        }
        if let Some(s) = strip_prefix(reasons[i].as_str(), "squawk:") {
            return join("SQK ", s.as_str());
        }
        assert(all.skip(i as int).skip(1) == all.skip(i + 1));
        i += 1;
    }
    "EMERGENCY".to_owned()
}

fn interest_text(reasons: &Vec<String>) -> (r: String)
    ensures
        r@ == interest_reason(texts_of(reasons@)),
{
    let ghost all = texts_of(reasons@);
    let n: usize = reasons.len();
    let mut i: usize = 0;
    assert(all.skip(0) == all);
    while i < n
        invariant
            n == reasons@.len(),
            i <= n,
            all == texts_of(reasons@),
            interest_reason(all) == interest_reason(all.skip(i as int)),
        decreases n - i,
    {
        assert(all.skip(i as int)[0] == reasons@[i as int]@);
        if same_text(reasons[i].as_str(), "military") {
            return "military".to_owned();
        }
        if same_text(reasons[i].as_str(), "balloon") {
            return "balloon".to_owned();
        }
        if let Some(w) = strip_prefix(reasons[i].as_str(), "watchlist:") {
            return join("watch ", w.as_str());
        }
        if same_text(reasons[i].as_str(), "interesting") {
            return "interesting".to_owned();
        }
        assert(all.skip(i as int).skip(1) == all.skip(i + 1));
        i += 1;
    }
    "interesting".to_owned()
}

fn callsign(a: &UiAircraft) -> (r: Option<String>)
    ensures
        text_of(r) == callsign_of(a@),
{
    match &a.flight {
        Some(f) => if !f.as_str().is_empty() {
            Some(f.clone())
        } else {
            None
        },
        None => None,
    }
}

/// `new`, or what is in `slot` where `new` is absent, goes into `slot`.
fn take_over<T>(slot: &mut Option<T>, new: Option<T>)
    ensures
        *final(slot) == or_else(new, *old(slot)),
{
    if new.is_some() {
        *slot = new;
    }
}

fn taken_coordinate(x: Option<Double>) -> (r: Option<Double>)
    ensures
        r == coordinate(x),
{
    match x {
        Some(d) => if d.no_number() {
            None
        } else {
            Some(d)
        },
        None => None,
    }
}

impl Sighting {
    /// The row of a contact that is seen for the first time.
    pub fn first(a: &UiAircraft, now: i64) -> (r: Sighting)
        ensures
            r@ == first_row(a@, now),
    {
        let reason: Option<String> = notable_reason(a);
        Sighting {
            hex: a.hex.clone(),
            first_seen_at: now,
            last_seen_at: now,
            registration: copy_text(&a.reg),
            type_code: copy_text(&a.t),
            type_desc: copy_text(&a.desc),
            operator: copy_text(&a.operator),
            callsign: callsign(a),
            squawk: copy_text(&a.squawk),
            notable: reason.is_some(),
            notable_reason: reason,
            caught_at: None,
            lat: taken_coordinate(a.lat),
            lon: taken_coordinate(a.lon),
            alt: alt_ft(a),
            seen_count: 1,
        }
    }

    /// Brings the row up to date with another sighting of its contact.
    pub fn see_again(&mut self, a: &UiAircraft, now: i64)
        ensures
            final(self)@ == next_row(old(self)@, a@, now),
    {
        let reason: Option<String> = notable_reason(a);
        self.last_seen_at = now;
        take_over(&mut self.registration, copy_text(&a.reg));
        take_over(&mut self.type_code, copy_text(&a.t));
        take_over(&mut self.type_desc, copy_text(&a.desc));
        take_over(&mut self.operator, copy_text(&a.operator));
        take_over(&mut self.callsign, callsign(a));
        self.squawk = copy_text(&a.squawk);
        if reason.is_some() {
            self.notable = true;
        }
        take_over(&mut self.notable_reason, reason);
        take_over(&mut self.lat, taken_coordinate(a.lat));
        take_over(&mut self.lon, taken_coordinate(a.lon));
        take_over(&mut self.alt, alt_ft(a));
        if self.seen_count < i64::MAX {
            self.seen_count = self.seen_count + 1;
        }
    }
}

/// The dex holds exactly the rows that were caught, in log order, and every other row is left out.
pub proof fn dex_holds_the_caught_rows(log: Seq<Row>)
    ensures
        dex_rows(log) == log.filter(|r: Row| r.caught_at is Some),
    decreases log.len(),
{
    reveal(Seq::filter);
    if log.len() > 0 {
        dex_holds_the_caught_rows(log.drop_last());
    }
}

/// The known types are the type codes that are not empty, one for each row, caught or not.
pub proof fn types_are_listed_row_by_row(log: Seq<Row>)
    ensures
        known_types(log) == log.filter(
            |r: Row| r.type_code is Some && r.type_code->0.len() > 0,
        ).map_values(|r: Row| r.type_code->0),
    decreases log.len(),
{
    reveal(Seq::filter);
    let typed = |r: Row| r.type_code is Some && r.type_code->0.len() > 0;
    let code = |r: Row| r.type_code->0;
    if log.len() > 0 {
        let less = log.drop_last();
        types_are_listed_row_by_row(less);
        if typed(log.last()) {
            assert(log.filter(typed) == less.filter(typed).push(log.last()));
            assert(log.filter(typed).map_values(code) =~= less.filter(typed).map_values(code).push(
                code(log.last()),
            ));
        } else {
            assert(log.filter(typed) == less.filter(typed));
        }
    } else {
        assert(log.filter(typed).map_values(code) =~= Seq::empty());
    }
}

proof fn lemma_past_reasons(reasons: Seq<Seq<char>>, k: int)
    requires
        0 <= k <= reasons.len(),
    ensures
        (forall|j: int|
            0 <= j < k ==> !"emergency:"@.is_prefix_of(#[trigger] reasons[j])
                && !"squawk:"@.is_prefix_of(reasons[j])) ==> emergency_reason(reasons)
            == emergency_reason(reasons.skip(k)),
        (forall|j: int|
            0 <= j < k ==> (#[trigger] reasons[j]) != "military"@ && reasons[j] != "balloon"@
                && reasons[j] != "interesting"@ && !"watchlist:"@.is_prefix_of(reasons[j]))
            ==> interest_reason(reasons) == interest_reason(reasons.skip(k)),
    decreases k,
{
    assert(reasons.skip(0) == reasons);
    if k > 0 {
        lemma_past_reasons(reasons, k - 1);
        assert(reasons.skip(k - 1).skip(1) == reasons.skip(k));
        assert(reasons.skip(k - 1)[0] == reasons[k - 1]);
    }
}

/// An emergency is logged with what its first emergency reason says: the declared emergency in
/// capitals, or the squawk. Where no reason is of that kind it is logged as "EMERGENCY".
pub proof fn emergencies_are_logged_with_their_reason(
    c: Contact,
    k: int,
    said: Seq<char>,
)
    requires
        c.is_emergency,
        0 <= k <= c.reasons.len(),
        forall|j: int|
            0 <= j < k ==> !"emergency:"@.is_prefix_of(#[trigger] c.reasons[j])
                && !"squawk:"@.is_prefix_of(c.reasons[j]),
    ensures
        k < c.reasons.len() && c.reasons[k] == "emergency:"@ + said ==> salient_reason(c) == Some(
            upper(said),
        ),
        k < c.reasons.len() && c.reasons[k] == "squawk:"@ + said ==> salient_reason(c) == Some(
            "SQK "@ + said,
        ),
        k == c.reasons.len() ==> salient_reason(c) == Some("EMERGENCY"@),
{
    lemma_past_reasons(c.reasons, k);
    if k < c.reasons.len() {
        assert(c.reasons.skip(k)[0] == c.reasons[k]);
        reveal_strlit("emergency:");
        reveal_strlit("squawk:");
        assert("emergency:"@[0] == 'e' && "squawk:"@[0] == 's');
        if c.reasons[k] == "emergency:"@ + said {
            assert("emergency:"@.is_prefix_of(c.reasons[k]));
            assert(c.reasons[k].skip(10) =~= said);
        }
        if c.reasons[k] == "squawk:"@ + said {
            assert(c.reasons[k][0] == 's');
            assert(!"emergency:"@.is_prefix_of(c.reasons[k]));
            assert("squawk:"@.is_prefix_of(c.reasons[k]));
            assert(c.reasons[k].skip(7) =~= said);
        }
    }
}

/// An interesting contact that is no emergency is logged with its first reason of interest: as
/// military, as a balloon, with the entry of the watchlist, or as interesting; and as interesting
/// where no reason is of that kind.
pub proof fn interest_is_logged_with_its_reason(c: Contact, k: int, said: Seq<char>)
    requires
        !c.is_emergency,
        c.interesting,
        0 <= k <= c.reasons.len(),
        forall|j: int|
            0 <= j < k ==> (#[trigger] c.reasons[j]) != "military"@ && c.reasons[j] != "balloon"@
                && c.reasons[j] != "interesting"@ && !"watchlist:"@.is_prefix_of(c.reasons[j]),
    ensures
        k < c.reasons.len() && c.reasons[k] == "military"@ ==> salient_reason(c) == Some(
            "military"@,
        ),
        k < c.reasons.len() && c.reasons[k] == "balloon"@ ==> salient_reason(c) == Some("balloon"@),
        k < c.reasons.len() && c.reasons[k] == "watchlist:"@ + said ==> salient_reason(c) == Some(
            "watch "@ + said,
        ),
        k < c.reasons.len() && c.reasons[k] == "interesting"@ ==> salient_reason(c) == Some(
            "interesting"@,
        ),
        k == c.reasons.len() ==> salient_reason(c) == Some("interesting"@),
{
    lemma_past_reasons(c.reasons, k);
    if k < c.reasons.len() {
        assert(c.reasons.skip(k)[0] == c.reasons[k]);
        reveal_strlit("military");
        reveal_strlit("balloon");
        reveal_strlit("watchlist:");
        reveal_strlit("interesting");
        assert("military"@[0] == 'm' && "balloon"@[0] == 'b' && "watchlist:"@[0] == 'w'
            && "interesting"@[0] == 'i');
        if c.reasons[k] == "watchlist:"@ + said {
            assert(c.reasons[k][0] == 'w');
            assert("watchlist:"@.is_prefix_of(c.reasons[k]));
            assert(c.reasons[k].skip(10) =~= said);
        }
    }
}

/// A contact is notable exactly where it is an emergency or interesting.
pub proof fn notable_is_emergency_or_interest(c: Contact)
    ensures
        salient_reason(c) is Some <==> c.is_emergency || c.interesting,
{
}

} // verus!
