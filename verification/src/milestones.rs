//! Collection figures and personal achievements, derived from the log.
use vstd::prelude::*;

use crate::number::{decimal, to_decimal};
use crate::order::{
    arranged, before, key_view, lemma_ranking_len, position_view, rank, ranking, stable_order,
    stable_order_exists,
};
use crate::rarity::{count_sum, lemma_sum_arranged};
use crate::sighting::{
    dex_holds_the_caught_rows, dex_rows, known_types, row_views, Row, Sighting,
};
use crate::text::{
    dedup, distinct, distinct_keeps_each_once, holds_text, is_text, texts_of,
};

verus! {

/// One personal achievement, unlocked by the user's own catches.
#[derive(Debug)]
pub struct Achievement {
    pub key: String,
    pub title: String,
    /// The description of an event, or the progress towards a threshold.
    pub note: String,
    pub unlocked: bool,
    /// When it was unlocked.
    pub at: Option<i64>,
}

/// Headline figures of the collection, and the achievements.
#[derive(Debug)]
pub struct Milestones {
    pub total_seen: i64,
    pub total_caught: i64,
    pub distinct_types: i64,
    pub distinct_operators: i64,
    pub shinies: i64,
    pub achievements: Vec<Achievement>,
}

/// An achievement, over character sequences.
#[verifier::ext_equal]
pub ghost struct Award {
    pub key: Seq<char>,
    pub title: Seq<char>,
    pub note: Seq<char>,
    pub unlocked: bool,
    pub at: Option<i64>,
}

impl View for Achievement {
    type V = Award;

    open spec fn view(&self) -> Award {
        Award {
            key: self.key@,
            title: self.title@,
            note: self.note@,
            unlocked: self.unlocked,
            at: self.at,
        }
    }
}

/// The views of a list of achievements.
pub open spec fn award_views(v: Seq<Achievement>) -> Seq<Award> {
    v.map_values(|a: Achievement| a@)
}

/// The figures and achievements, over mathematical values.
#[verifier::ext_equal]
pub ghost struct Summary {
    pub total_seen: int,
    pub total_caught: int,
    pub distinct_types: int,
    pub distinct_operators: int,
    pub shinies: int,
    pub achievements: Seq<Award>,
}

impl Summary {
    /// The summary where there is no log.
    pub open spec fn nothing() -> Summary {
        Summary {
            total_seen: 0,
            total_caught: 0,
            distinct_types: 0,
            distinct_operators: 0,
            shinies: 0,
            achievements: Seq::empty(),
        }
    }
}

impl View for Milestones {
    type V = Summary;

    open spec fn view(&self) -> Summary {
        Summary {
            total_seen: self.total_seen as int,
            total_caught: self.total_caught as int,
            distinct_types: self.distinct_types as int,
            distinct_operators: self.distinct_operators as int,
            shinies: self.shinies as int,
            achievements: award_views(self.achievements@),
        }
    }
}

/// A kind of catch that unlocks an achievement.
#[derive(Clone, Copy, Debug, PartialEq, Eq, Structural)]
pub enum EventKind {
    Military,
    Notable,
    EmergencySquawk,
    RadioFailure,
    Hijack,
}

impl EventKind {
    /// The row is a catch of this kind, if it is caught.
    pub open spec fn fits(self, row: Row) -> bool {
        match self {
            EventKind::Military => row.notable_reason == Some("military"@),
            EventKind::Notable => row.notable,
            EventKind::EmergencySquawk => row.squawk == Some("7500"@) || row.squawk == Some(
                "7600"@,
            ) || row.squawk == Some("7700"@),
            EventKind::RadioFailure => row.squawk == Some("7600"@),
            EventKind::Hijack => row.squawk == Some("7500"@),
        }
    }
}

/// The earlier of two times, where there are any.
pub open spec fn earlier(a: Option<i64>, b: Option<i64>) -> Option<i64> {
    match (a, b) {
        (Some(x), Some(y)) => if y < x {
            Some(y)
        } else {
            Some(x)
        },
        (Some(x), None) => Some(x),
        (None, y) => y,
    }
}

/// When the first row of a kind was caught.
pub open spec fn first_catch(dex: Seq<Row>, kind: EventKind) -> Option<i64>
    decreases dex.len(),
{
    if dex.len() == 0 {
        None
    } else {
        let rest = first_catch(dex.drop_last(), kind);
        if kind.fits(dex.last()) {
            earlier(rest, dex.last().caught_at)
        } else {
            rest
        }
    }
}

/// The caught rows in the order in which they were caught, ties in log order.
pub open spec fn by_time(dex: Seq<Row>) -> Seq<Row> {
    arranged(dex, ranking(dex.map_values(|r: Row| r.caught_at->0 as int)))
}

/// The operators of the rows that have one.
pub open spec fn operators_in(dex: Seq<Row>) -> Seq<Seq<char>>
    decreases dex.len(),
{
    if dex.len() == 0 {
        Seq::empty()
    } else {
        let rest = operators_in(dex.drop_last());
        match dex.last().operator {
            Some(o) => rest.push(o),
            None => rest,
        }
    }
}

/// How many rows are notable.
pub open spec fn notable_count(dex: Seq<Row>) -> int
    decreases dex.len(),
{
    if dex.len() == 0 {
        0
    } else if dex.last().notable {
        notable_count(dex.drop_last()) + 1
    } else {
        notable_count(dex.drop_last())
    }
}

/// What an achievement for a count counts.
#[derive(Clone, Copy, Debug, PartialEq, Eq, Structural)]
pub enum Tally {
    /// Catches.
    Catches,
    /// Distinct types caught.
    Types,
    /// Distinct operators caught.
    Operators,
    /// Notable catches.
    Shinies,
}

impl Tally {
    /// The distinct texts that are counted, where texts are.
    pub open spec fn texts(self, rows: Seq<Row>) -> Seq<Seq<char>> {
        match self {
            Tally::Types => distinct(known_types(rows)),
            Tally::Operators => distinct(operators_in(rows)),
            _ => Seq::empty(),
        }
    }

    /// The count over some caught rows.
    pub open spec fn count(self, rows: Seq<Row>) -> int {
        match self {
            Tally::Catches => rows.len() as int,
            Tally::Types => self.texts(rows).len() as int,
            Tally::Operators => self.texts(rows).len() as int,
            Tally::Shinies => notable_count(rows),
        }
    }
}

/// With the `n`th row, and not before, the count reaches the target.
pub open spec fn reaches(rows: Seq<Row>, tally: Tally, target: int, n: int) -> bool {
    &&& 1 <= n <= rows.len()
    &&& tally.count(rows.take(n)) >= target
    &&& forall|m: int| 0 <= m < n ==> tally.count(#[trigger] rows.take(m)) < target
}

/// When the row was caught with which the count reached the target.
pub open spec fn reached_at(rows: Seq<Row>, tally: Tally, target: int) -> Option<i64> {
    if exists|n: int| reaches(rows, tally, target, n) {
        rows[(choose|n: int| reaches(rows, tally, target, n)) - 1].caught_at
    } else {
        None
    }
}

/// An achievement for a count over the caught rows: unlocked once the count is reached and dated
/// by the catch that reached it, before that with the progress towards it. `have` is the count,
/// and `sorted` holds the rows in the order in which they were caught.
pub open spec fn threshold(
    key: Seq<char>,
    title: Seq<char>,
    tally: Tally,
    target: int,
    have: int,
    sorted: Seq<Row>,
) -> Award {
    Award {
        key,
        title,
        note: if have >= target {
            "unlocked"@
        } else {
            decimal(have) + " / "@ + decimal(target)
        },
        unlocked: have >= target,
        at: if have >= target {
            reached_at(sorted, tally, target)
        } else {
            None
        },
    }
}

/// An achievement for a kind of catch: unlocked by the first such catch and dated by it.
pub open spec fn event(key: Seq<char>, title: Seq<char>, desc: Seq<char>, at: Option<i64>) -> Award {
    Award { key, title, note: desc, unlocked: at is Some, at }
}

/// The achievements, in the order in which they are shown.
pub open spec fn awards(dex: Seq<Row>) -> Seq<Award> {
    let catches = Tally::Catches.count(dex);
    let types = Tally::Types.count(dex);
    let operators = Tally::Operators.count(dex);
    let shinies = Tally::Shinies.count(dex);
    let sorted = by_time(dex);
    seq![
        threshold("first"@, "First Contact"@, Tally::Catches, 1, catches, sorted),
        threshold("caught10"@, "Getting Started"@, Tally::Catches, 10, catches, sorted),
        threshold("caught25"@, "Collector"@, Tally::Catches, 25, catches, sorted),
        threshold("caught50"@, "Spotter"@, Tally::Catches, 50, catches, sorted),
        threshold("caught100"@, "Centurion"@, Tally::Catches, 100, catches, sorted),
        threshold("types10"@, "Type Hunter"@, Tally::Types, 10, types, sorted),
        threshold("types25"@, "Type Master"@, Tally::Types, 25, types, sorted),
        threshold("ops5"@, "Frequent Flyer"@, Tally::Operators, 5, operators, sorted),
        threshold("ops10"@, "Airline Bingo"@, Tally::Operators, 10, operators, sorted),
        threshold("shiny5"@, "Treasure Hunter"@, Tally::Shinies, 5, shinies, sorted),
        event(
            "military"@,
            "Brass"@,
            "Catch a military aircraft"@,
            first_catch(dex, EventKind::Military),
        ),
        event("shiny"@, "Shiny"@, "Catch a notable aircraft"@, first_catch(dex, EventKind::Notable)),
        event(
            "emergency"@,
            "Mayday"@,
            "Catch an emergency squawk"@,
            first_catch(dex, EventKind::EmergencySquawk),
        ),
        event(
            "nordo"@,
            "Radio Silence"@,
            "Catch a NORDO — squawk 7600"@,
            first_catch(dex, EventKind::RadioFailure),
        ),
        event(
            "hijack"@,
            "Unlawful"@,
            "Catch a hijack squawk — 7500"@,
            first_catch(dex, EventKind::Hijack),
        ),
    ]
}

/// The figures and achievements of a log.
pub open spec fn milestones_of(log: Seq<Row>) -> Summary {
    let dex = dex_rows(log);
    Summary {
        total_seen: log.len() as int,
        total_caught: dex.len() as int,
        distinct_types: distinct(known_types(dex)).len() as int,
        distinct_operators: distinct(operators_in(dex)).len() as int,
        shinies: notable_count(dex),
        achievements: awards(dex),
    }
}

proof fn lemma_list_lengths(dex: Seq<Row>)
    ensures
        known_types(dex).len() <= dex.len(),
        operators_in(dex).len() <= dex.len(),
        0 <= notable_count(dex) <= dex.len(),
    decreases dex.len(),
{
    if dex.len() > 0 {
        lemma_list_lengths(dex.drop_last());
    }
}

/// The dex holds only caught rows, and no more rows than the log.
pub proof fn lemma_dex_rows(log: Seq<Row>)
    ensures
        dex_rows(log).len() <= log.len(),
        forall|i: int| 0 <= i < dex_rows(log).len() ==> #[trigger] dex_rows(log)[i].caught_at is Some,
    decreases log.len(),
{
    if log.len() > 0 {
        lemma_dex_rows(log.drop_last());
    }
}

impl Milestones {
    /// The milestones where there is no log.
    pub fn none() -> (r: Milestones)
        ensures
            r@ == Summary::nothing(),
    {
        let r: Milestones = Milestones {
            total_seen: 0,
            total_caught: 0,
            distinct_types: 0,
            distinct_operators: 0,
            shinies: 0,
            achievements: Vec::new(),
        };
        assert(award_views(r.achievements@) =~= Seq::<Award>::empty());
        r
    }
}

/// References to the caught rows, in log order.
fn caught_rows(rows: &Vec<Sighting>) -> (r: Vec<&Sighting>)
    ensures
        ref_views(r@) == dex_rows(row_views(rows@)),
{
    let ghost log = row_views(rows@);
    let mut r: Vec<&Sighting> = Vec::new();
    let n: usize = rows.len();
    let mut i: usize = 0;
    assert(ref_views(r@) =~= dex_rows(log.take(0)));
    while i < n
        invariant
            n == rows@.len(),
            log == row_views(rows@),
            i <= n,
            ref_views(r@) == dex_rows(log.take(i as int)),
        decreases n - i,
    {
        let ghost before = ref_views(r@);
        assert(log.take(i + 1).drop_last() == log.take(i as int));
        if rows[i].caught_at.is_some() {
            r.push(&rows[i]);
            assert(ref_views(r@) =~= before.push(rows@[i as int]@));
        }
        i += 1;
    }
    assert(log.take(n as int) == log);
    r
}

/// The views of a list of references to rows.
spec fn ref_views(v: Seq<&Sighting>) -> Seq<Row> {
    v.map_values(|s: &Sighting| s@)
}

/// Whether the row is a catch of the kind, if it is caught.
fn fits_kind(row: &Sighting, kind: EventKind) -> (r: bool)
    ensures
        r == kind.fits(row@),
{
    match kind {
        EventKind::Military => is_text(&row.notable_reason, "military"),
        EventKind::Notable => row.notable,
        EventKind::EmergencySquawk => is_text(&row.squawk, "7500") || is_text(&row.squawk, "7600")
            || is_text(&row.squawk, "7700"),
        EventKind::RadioFailure => is_text(&row.squawk, "7600"),
        EventKind::Hijack => is_text(&row.squawk, "7500"),
    }
}

/// When the first row of a kind was caught.
fn find_first(dex: &Vec<&Sighting>, kind: EventKind) -> (r: Option<i64>)
    ensures
        r == first_catch(ref_views(dex@), kind),
{
    let ghost all = ref_views(dex@);
    let n: usize = dex.len();
    let mut r: Option<i64> = None;
    let mut i: usize = 0;
    while i < n
        invariant
            n == dex@.len(),
            all == ref_views(dex@),
            i <= n,
            r == first_catch(all.take(i as int), kind),
        decreases n - i,
    {
        assert(all.take(i + 1).drop_last() == all.take(i as int));
        if fits_kind(dex[i], kind) {
            r = match (r, dex[i].caught_at) {
                (Some(x), Some(y)) => if y < x {
                    Some(y)
                } else {
                    Some(x)
                },
                (Some(x), None) => Some(x),
                (None, y) => y,
            };
        }
        i += 1;
    }
    assert(all.take(n as int) == all);
    r
}

/// References to the caught rows, in the order in which they were caught.
fn sorted_rows<'a>(dex: &Vec<&'a Sighting>) -> (r: Vec<&'a Sighting>)
    requires
        forall|i: int| 0 <= i < dex@.len() ==> #[trigger] dex@[i].caught_at is Some,
    ensures
        ref_views(r@) == by_time(ref_views(dex@)),
{
    let ghost all = ref_views(dex@);
    let ghost times = all.map_values(|r: Row| r.caught_at->0 as int);
    let n: usize = dex.len();
    let mut keys: Vec<i128> = Vec::new();
    let mut i: usize = 0;
    while i < n
        invariant
            n == dex@.len(),
            all == ref_views(dex@),
            times == all.map_values(|r: Row| r.caught_at->0 as int),
            forall|i: int| 0 <= i < dex@.len() ==> #[trigger] dex@[i].caught_at is Some,
            i <= n,
            keys@.len() == i,
            forall|j: int| 0 <= j < i ==> #[trigger] keys@[j] == times[j],
        decreases n - i,
    {
        let t: i64 = match dex[i].caught_at {
            Some(t) => t,
            None => 0,
        };
        assert(times[i as int] == t);
        keys.push(t as i128);
        i += 1;
    }
    let p: Vec<usize> = rank(&keys);
    assert(key_view(keys@) =~= times);
    let ghost order = position_view(p@);
    let mut r: Vec<&'a Sighting> = Vec::new();
    let mut k: usize = 0;
    while k < n
        invariant
            n == p@.len(),
            n == dex@.len(),
            all == ref_views(dex@),
            times.len() == n,
            order == position_view(p@),
            stable_order(times, order),
            k <= n,
            r@.len() == k,
            forall|j: int| 0 <= j < k ==> (#[trigger] r@[j])@ == all[order[j]],
        decreases n - k,
    {
        assert(0 <= order[k as int] < n);
        r.push(dex[p[k]]);
        k += 1;
    }
    assert(ref_views(r@) =~= by_time(all));
    r
}

/// When the row was caught with which the count reached the target. The rows are in the order in
/// which they were caught.
fn find_reached(rows: &Vec<&Sighting>, tally: Tally, target: i64) -> (r: Option<i64>)
    requires
        target >= 1,
        rows@.len() <= i64::MAX,
    ensures
        r == reached_at(ref_views(rows@), tally, target as int),
{
    let ghost all = ref_views(rows@);
    let n: usize = rows.len();
    let mut texts: Vec<String> = Vec::new();
    let mut others: i64 = 0;
    let mut i: usize = 0;
    assert(all.take(0) == Seq::<Row>::empty());
    assert(texts_of(texts@) =~= tally.texts(all.take(0)));
    while i < n
        invariant
            n == rows@.len(),
            n <= i64::MAX,
            all == ref_views(rows@),
            i <= n,
            0 <= others <= i,
            texts_of(texts@) == tally.texts(all.take(i as int)),
            texts@.len() <= i,
            tally is Catches || tally is Shinies ==> others == tally.count(all.take(i as int)),
            forall|m: int| 0 <= m <= i ==> tally.count(#[trigger] all.take(m)) < target,
        decreases n - i,
    {
        let ghost before = texts_of(texts@);
        let ghost now = all.take(i + 1);
        assert(now.drop_last() == all.take(i as int));
        assert(now.last() == rows@[i as int]@);
        match tally {
            Tally::Catches => {
                others = others + 1;
            },
            Tally::Types => {
                if let Some(t) = &rows[i].type_code {
                    if !t.as_str().is_empty() {
                        note_text(&mut texts, t);
                        assert(known_types(now).drop_last() == known_types(all.take(i as int)));
                    }
                }
            },
            Tally::Operators => {
                if let Some(o) = &rows[i].operator {
                    note_text(&mut texts, o);
                    assert(operators_in(now).drop_last() == operators_in(all.take(i as int)));
                }
            },
            Tally::Shinies => {
                if rows[i].notable {
                    others = others + 1;
                }
            },
        }
        let have: i64 = match tally {
            Tally::Types => texts.len() as i64,
            Tally::Operators => texts.len() as i64,
            _ => others,
        };
        assert(texts_of(texts@).len() == texts@.len());
        assert(have == tally.count(now));
        i += 1;
        if have >= target {
            proof {
                assert(reaches(all, tally, target as int, i as int));
                let k = choose|k: int| reaches(all, tally, target as int, k);
                assert(tally.count(all.take(k)) >= target);
                assert(tally.count(all.take(i as int)) >= target);
                assert(k == i);
            }
            return rows[i - 1].caught_at;
        }
    }
    assert forall|k: int| !reaches(all, tally, target as int, k) by {
        if reaches(all, tally, target as int, k) {
            assert(tally.count(all.take(k)) >= target);
        }
    }
    None
}

/// Notes a text, unless it is there already.
fn note_text(texts: &mut Vec<String>, text: &String)
    ensures
        texts_of(final(texts)@) == (if texts_of(old(texts)@).contains(text@) {
            texts_of(old(texts)@)
        } else {
            texts_of(old(texts)@).push(text@)
        }),
        final(texts)@.len() <= old(texts)@.len() + 1,
{
    let ghost before = texts_of(texts@);
    if !holds_text(texts, text.as_str()) {
        texts.push(text.clone());
        assert(texts_of(texts@) =~= before.push(text@));
    }
}

/// The type codes of the rows that have one.
fn list_types(dex: &Vec<&Sighting>) -> (r: Vec<String>)
    ensures
        texts_of(r@) == known_types(ref_views(dex@)),
{
    let ghost all = ref_views(dex@);
    let n: usize = dex.len();
    let mut r: Vec<String> = Vec::new();
    let mut i: usize = 0;
    assert(texts_of(r@) =~= known_types(all.take(0)));
    while i < n
        invariant
            n == dex@.len(),
            all == ref_views(dex@),
            i <= n,
            texts_of(r@) == known_types(all.take(i as int)),
        decreases n - i,
    {
        let ghost before = texts_of(r@);
        assert(all.take(i + 1).drop_last() == all.take(i as int));
        if let Some(t) = &dex[i].type_code {
            if !t.as_str().is_empty() {
                r.push(t.clone());
                assert(texts_of(r@) =~= before.push(t@));
            }
        }
        i += 1;
    }
    assert(all.take(n as int) == all);
    r
}

/// The operators of the rows that have one.
fn list_operators(dex: &Vec<&Sighting>) -> (r: Vec<String>)
    ensures
        texts_of(r@) == operators_in(ref_views(dex@)),
{
    let ghost all = ref_views(dex@);
    let n: usize = dex.len();
    let mut r: Vec<String> = Vec::new();
    let mut i: usize = 0;
    assert(texts_of(r@) =~= operators_in(all.take(0)));
    while i < n
        invariant
            n == dex@.len(),
            all == ref_views(dex@),
            i <= n,
            texts_of(r@) == operators_in(all.take(i as int)),
        decreases n - i,
    {
        let ghost before = texts_of(r@);
        assert(all.take(i + 1).drop_last() == all.take(i as int));
        if let Some(o) = &dex[i].operator {
            r.push(o.clone());
            assert(texts_of(r@) =~= before.push(o@));
        }
        i += 1;
    }
    assert(all.take(n as int) == all);
    r
}

/// How many rows are notable.
fn count_notable(dex: &Vec<&Sighting>) -> (r: i64)
    requires
        dex@.len() <= i64::MAX,
    ensures
        r == notable_count(ref_views(dex@)),
{
    let ghost all = ref_views(dex@);
    let n: usize = dex.len();
    let mut r: i64 = 0;
    let mut i: usize = 0;
    while i < n
        invariant
            n == dex@.len(),
            n <= i64::MAX,
            all == ref_views(dex@),
            i <= n,
            0 <= r <= i,
            r == notable_count(all.take(i as int)),
        decreases n - i,
    {
        assert(all.take(i + 1).drop_last() == all.take(i as int));
        if dex[i].notable {
            r = r + 1;
        }
        i += 1;
    }
    assert(all.take(n as int) == all);
    r
}

/// An achievement for a count.
fn make_threshold(
    key: &str,
    title: &str,
    tally: Tally,
    target: i64,
    have: i64,
    sorted: &Vec<&Sighting>,
) -> (r: Achievement)
    requires
        target >= 1,
        sorted@.len() <= i64::MAX,
    ensures
        r@ == threshold(
            key@,
            title@,
            tally,
            target as int,
            have as int,
            ref_views(sorted@),
        ),
{
    let unlocked: bool = have >= target;
    let note: String = if unlocked {
        "unlocked".to_owned()
    } else {
        let mut s: String = to_decimal(have);
        s.append(" / ");
        s.append(to_decimal(target).as_str());
        s
    };
    let at: Option<i64> = if unlocked {
        find_reached(sorted, tally, target)
    } else {
        None
    };
    Achievement { key: key.to_owned(), title: title.to_owned(), note, unlocked, at }
}

/// An achievement for a kind of catch.
fn make_event(key: &str, title: &str, desc: &str, at: Option<i64>) -> (r: Achievement)
    ensures
        r@ == event(key@, title@, desc@, at),
{
    Achievement {
        key: key.to_owned(),
        title: title.to_owned(),
        note: desc.to_owned(),
        unlocked: at.is_some(),
        at,
    }
}

/// The figures and achievements of a log.
pub fn summarize(rows: &Vec<Sighting>) -> (r: Milestones)
    requires
        rows@.len() <= i64::MAX,
    ensures
        r@ == milestones_of(row_views(rows@)),
{
    let ghost log = row_views(rows@);
    let dex: Vec<&Sighting> = caught_rows(rows);
    let ghost d = ref_views(dex@);
    proof {
        lemma_dex_rows(log);
        lemma_list_lengths(d);
        distinct_keeps_each_once(known_types(d));
        distinct_keeps_each_once(operators_in(d));
        assert forall|i: int| 0 <= i < dex@.len() implies #[trigger] dex@[i].caught_at is Some by {
            assert(d[i].caught_at is Some);
        }
    }
    let total_caught: i64 = dex.len() as i64;
    let types: Vec<String> = dedup(&list_types(&dex));
    let operators: Vec<String> = dedup(&list_operators(&dex));
    assert(texts_of(types@).len() == types@.len());
    assert(texts_of(operators@).len() == operators@.len());
    let distinct_types: i64 = types.len() as i64;
    let distinct_operators: i64 = operators.len() as i64;
    let shinies: i64 = count_notable(&dex);
    let sorted: Vec<&Sighting> = sorted_rows(&dex);
    assert(ref_views(sorted@).len() == sorted@.len());
    proof {
        let times = d.map_values(|r: Row| r.caught_at->0 as int);
        stable_order_exists(times);
        lemma_ranking_len(times, ranking(times));
    }
    let achievements: Vec<Achievement> = vec![
        make_threshold("first", "First Contact", Tally::Catches, 1, total_caught, &sorted),
        make_threshold("caught10", "Getting Started", Tally::Catches, 10, total_caught, &sorted),
        make_threshold("caught25", "Collector", Tally::Catches, 25, total_caught, &sorted),
        make_threshold("caught50", "Spotter", Tally::Catches, 50, total_caught, &sorted),
        make_threshold("caught100", "Centurion", Tally::Catches, 100, total_caught, &sorted),
        make_threshold("types10", "Type Hunter", Tally::Types, 10, distinct_types, &sorted),
        make_threshold("types25", "Type Master", Tally::Types, 25, distinct_types, &sorted),
        make_threshold("ops5", "Frequent Flyer", Tally::Operators, 5, distinct_operators, &sorted),
        make_threshold("ops10", "Airline Bingo", Tally::Operators, 10, distinct_operators, &sorted),
        make_threshold("shiny5", "Treasure Hunter", Tally::Shinies, 5, shinies, &sorted),
        make_event(
            "military",
            "Brass",
            "Catch a military aircraft",
            find_first(&dex, EventKind::Military),
        ),
        make_event(
            "shiny",
            "Shiny",
            "Catch a notable aircraft",
            find_first(&dex, EventKind::Notable),
        ),
        make_event(
            "emergency",
            "Mayday",
            "Catch an emergency squawk",
            find_first(&dex, EventKind::EmergencySquawk),
        ),
        make_event(
            "nordo",
            "Radio Silence",
            "Catch a NORDO — squawk 7600",
            find_first(&dex, EventKind::RadioFailure),
        ),
        make_event(
            "hijack",
            "Unlawful",
            "Catch a hijack squawk — 7500",
            find_first(&dex, EventKind::Hijack),
        ),
    ];
    assert(award_views(achievements@) =~= awards(d));
    Milestones {
        total_seen: rows.len() as i64,
        total_caught,
        distinct_types,
        distinct_operators,
        shinies,
        achievements,
    }
}

spec fn marks(rows: Seq<Row>) -> Seq<(Seq<char>, int)> {
    rows.map_values(
        |r: Row|
            (
                r.hex,
                if r.notable {
                    1
                } else {
                    0
                },
            ),
    )
}

proof fn lemma_marks(rows: Seq<Row>)
    ensures
        count_sum(marks(rows)) == notable_count(rows),
    decreases rows.len(),
{
    if rows.len() > 0 {
        lemma_marks(rows.drop_last());
        assert(marks(rows).drop_last() =~= marks(rows.drop_last()));
    }
}

/// The row has a known type.
spec fn of_type(row: Row, t: Seq<char>) -> bool {
    row.type_code == Some(t) && t.len() > 0
}

proof fn lemma_listed(rows: Seq<Row>, t: Seq<char>)
    ensures
        known_types(rows).contains(t) <==> exists|i: int|
            0 <= i < rows.len() && of_type(#[trigger] rows[i], t),
        operators_in(rows).contains(t) <==> exists|i: int|
            0 <= i < rows.len() && (#[trigger] rows[i]).operator == Some(t),
    decreases rows.len(),
{
    if rows.len() > 0 {
        let less = rows.drop_last();
        let last = rows.len() - 1;
        lemma_listed(less, t);
        let (a, b) = (known_types(rows), known_types(less));
        let (c, d) = (operators_in(rows), operators_in(less));
        assert(a.contains(t) <==> b.contains(t) || of_type(rows[last], t)) by {
            if b.contains(t) {
                let k = choose|k: int| 0 <= k < b.len() && b[k] == t;
                assert(a[k] == t);
            }
            if of_type(rows[last], t) {
                assert(a[b.len() as int] == t);
            }
            if a.contains(t) {
                let k = choose|k: int| 0 <= k < a.len() && a[k] == t;
                if k < b.len() {
                    assert(b[k] == t);
                }
            }
        }
        assert(c.contains(t) <==> d.contains(t) || rows[last].operator == Some(t)) by {
            if d.contains(t) {
                let k = choose|k: int| 0 <= k < d.len() && d[k] == t;
                assert(c[k] == t);
            }
            if rows[last].operator == Some(t) {
                assert(c[d.len() as int] == t);
            }
            if c.contains(t) {
                let k = choose|k: int| 0 <= k < c.len() && c[k] == t;
                if k < d.len() {
                    assert(d[k] == t);
                }
            }
        }
        assert forall|i: int| 0 <= i < less.len() implies #[trigger] less[i] == rows[i] by {}
        if exists|i: int| 0 <= i < rows.len() && of_type(#[trigger] rows[i], t) {
            let i = choose|i: int| 0 <= i < rows.len() && of_type(#[trigger] rows[i], t);
            if i < last {
                assert(of_type(less[i], t));
            }
        }
        if exists|i: int| 0 <= i < less.len() && of_type(#[trigger] less[i], t) {
            let i = choose|i: int| 0 <= i < less.len() && of_type(#[trigger] less[i], t);
            assert(of_type(rows[i], t));
        }
        if exists|i: int| 0 <= i < rows.len() && (#[trigger] rows[i]).operator == Some(t) {
            let i = choose|i: int| 0 <= i < rows.len() && (#[trigger] rows[i]).operator == Some(t);
            if i < last {
                assert(less[i].operator == Some(t));
            }
        }
        if exists|i: int| 0 <= i < less.len() && (#[trigger] less[i]).operator == Some(t) {
            let i = choose|i: int| 0 <= i < less.len() && (#[trigger] less[i]).operator == Some(t);
            assert(rows[i].operator == Some(t));
        }
    }
}

proof fn lemma_same_texts(a: Seq<Seq<char>>, b: Seq<Seq<char>>)
    requires
        forall|t: Seq<char>| a.contains(t) <==> b.contains(t),
    ensures
        distinct(a).len() == distinct(b).len(),
{
    distinct_keeps_each_once(a);
    distinct_keeps_each_once(b);
    distinct(a).unique_seq_to_set();
    distinct(b).unique_seq_to_set();
    assert forall|t: Seq<char>| distinct(a).to_set().contains(t) <==> distinct(b).to_set().contains(
        t,
    ) by {
        assert(distinct(a).contains(t) <==> a.contains(t));
        assert(distinct(b).contains(t) <==> b.contains(t));
    }
    assert(distinct(a).to_set() =~= distinct(b).to_set());
}

proof fn lemma_count_by_time(dex: Seq<Row>, tally: Tally)
    ensures
        by_time(dex).len() == dex.len(),
        tally.count(by_time(dex)) == tally.count(dex),
        forall|i: int| 0 <= i < dex.len() ==> dex.contains(#[trigger] by_time(dex)[i]),
{
    let times = dex.map_values(|r: Row| r.caught_at->0 as int);
    let p = ranking(times);
    stable_order_exists(times);
    lemma_ranking_len(times, p);
    let sorted = by_time(dex);
    assert forall|i: int| 0 <= i < dex.len() implies dex.contains(#[trigger] sorted[i]) by {
        assert(sorted[i] == dex[p[i]]);
    }
    assert forall|i: int| 0 <= i < dex.len() implies sorted.contains(#[trigger] dex[i]) by {
        assert(p.contains(i));
        let k = choose|k: int| 0 <= k < p.len() && p[k] == i;
        assert(sorted[k] == dex[i]);
    }
    assert forall|t: Seq<char>|
        (known_types(sorted).contains(t) <==> known_types(dex).contains(t)) && (operators_in(
            sorted,
        ).contains(t) <==> operators_in(dex).contains(t)) by {
        lemma_listed(sorted, t);
        lemma_listed(dex, t);
        lemma_same_rows(sorted, dex, t);
        lemma_same_rows(dex, sorted, t);
    }
    lemma_same_texts(known_types(sorted), known_types(dex));
    lemma_same_texts(operators_in(sorted), operators_in(dex));
    lemma_marks(sorted);
    lemma_marks(dex);
    lemma_sum_arranged(marks(dex), p);
    assert(arranged(marks(dex), p) =~= marks(sorted));
}

proof fn lemma_same_rows(a: Seq<Row>, b: Seq<Row>, t: Seq<char>)
    requires
        forall|i: int| 0 <= i < a.len() ==> b.contains(#[trigger] a[i]),
    ensures
        (exists|i: int| 0 <= i < a.len() && of_type(#[trigger] a[i], t)) ==> (exists|i: int|
            0 <= i < b.len() && of_type(#[trigger] b[i], t)),
        (exists|i: int| 0 <= i < a.len() && (#[trigger] a[i]).operator == Some(t)) ==> (exists|
            i: int,
        |
            0 <= i < b.len() && (#[trigger] b[i]).operator == Some(t)),
{
    if exists|i: int| 0 <= i < a.len() && of_type(#[trigger] a[i], t) {
        let i = choose|i: int| 0 <= i < a.len() && of_type(#[trigger] a[i], t);
        let k = choose|k: int| 0 <= k < b.len() && b[k] == a[i];
        assert(of_type(b[k], t));
    }
    if exists|i: int| 0 <= i < a.len() && (#[trigger] a[i]).operator == Some(t) {
        let i = choose|i: int| 0 <= i < a.len() && (#[trigger] a[i]).operator == Some(t);
        let k = choose|k: int| 0 <= k < b.len() && b[k] == a[i];
        assert(b[k].operator == Some(t));
    }
}

proof fn lemma_reached(rows: Seq<Row>, tally: Tally, target: int, n: int)
    requires
        1 <= target <= tally.count(rows.take(n)),
        0 <= n <= rows.len(),
    ensures
        exists|k: int| reaches(rows, tally, target, k),
    decreases n,
{
    assert(rows.take(0) == Seq::<Row>::empty());
    if exists|m: int| 0 <= m < n && tally.count(#[trigger] rows.take(m)) >= target {
        let m = choose|m: int| 0 <= m < n && tally.count(#[trigger] rows.take(m)) >= target;
        lemma_reached(rows, tally, target, m);
    } else {
        assert(reaches(rows, tally, target, n));
    }
}

/// Every unlocked achievement for a count has a date: that of a catch with which the count, over
/// the catches up to then, reached the target for the first time.
pub proof fn unlocked_counts_are_dated(dex: Seq<Row>, tally: Tally, target: int)
    requires
        forall|i: int| 0 <= i < dex.len() ==> (#[trigger] dex[i]).caught_at is Some,
        1 <= target <= tally.count(dex),
    ensures
        exists|n: int| #[trigger]
            reaches(by_time(dex), tally, target, n) && by_time(dex)[n - 1].caught_at is Some
                && reached_at(by_time(dex), tally, target) == by_time(dex)[n - 1].caught_at,
{
    let sorted = by_time(dex);
    lemma_count_by_time(dex, tally);
    assert(sorted.take(sorted.len() as int) == sorted);
    lemma_reached(sorted, tally, target, sorted.len() as int);
    let n = choose|n: int| reaches(sorted, tally, target, n);
    assert(reaches(sorted, tally, target, n));
    assert(dex.contains(sorted[n - 1]));
}

/// The achievement with this key.
pub open spec fn achievement(all: Summary, key: Seq<char>) -> Award {
    all.achievements[choose|k: int|
        0 <= k < all.achievements.len() && (#[trigger] all.achievements[k]).key == key]
}

/// The achievements are listed in a fixed order, each key once, under their titles; an event is
/// noted with its description.
pub proof fn achievements_are_listed(log: Seq<Row>)
    ensures
        ({
            let all = milestones_of(log).achievements;
            &&& all.len() == 15
            &&& all[0].key == "first"@ && all[0].title == "First Contact"@
            &&& all[1].key == "caught10"@ && all[1].title == "Getting Started"@
            &&& all[2].key == "caught25"@ && all[2].title == "Collector"@
            &&& all[3].key == "caught50"@ && all[3].title == "Spotter"@
            &&& all[4].key == "caught100"@ && all[4].title == "Centurion"@
            &&& all[5].key == "types10"@ && all[5].title == "Type Hunter"@
            &&& all[6].key == "types25"@ && all[6].title == "Type Master"@
            &&& all[7].key == "ops5"@ && all[7].title == "Frequent Flyer"@
            &&& all[8].key == "ops10"@ && all[8].title == "Airline Bingo"@
            &&& all[9].key == "shiny5"@ && all[9].title == "Treasure Hunter"@
            &&& all[10].key == "military"@ && all[10].title == "Brass"@
            &&& all[11].key == "shiny"@ && all[11].title == "Shiny"@
            &&& all[12].key == "emergency"@ && all[12].title == "Mayday"@
            &&& all[13].key == "nordo"@ && all[13].title == "Radio Silence"@
            &&& all[14].key == "hijack"@ && all[14].title == "Unlawful"@
            &&& all[10].note == "Catch a military aircraft"@
            &&& all[11].note == "Catch a notable aircraft"@
            &&& all[12].note == "Catch an emergency squawk"@
            &&& all[13].note == "Catch a NORDO — squawk 7600"@
            &&& all[14].note == "Catch a hijack squawk — 7500"@
            &&& forall|i: int, j: int|
                0 <= i < j < 15 ==> (#[trigger] all[i]).key != (#[trigger] all[j]).key
        }),
{
    reveal_strlit("first");
    reveal_strlit("caught10");
    reveal_strlit("caught25");
    reveal_strlit("caught50");
    reveal_strlit("caught100");
    reveal_strlit("types10");
    reveal_strlit("types25");
    reveal_strlit("ops5");
    reveal_strlit("ops10");
    reveal_strlit("shiny5");
    reveal_strlit("military");
    reveal_strlit("shiny");
    reveal_strlit("emergency");
    reveal_strlit("nordo");
    reveal_strlit("hijack");
    let all = milestones_of(log).achievements;
    assert(all.len() == 15);
    assert forall|i: int, j: int| 0 <= i < j < 15 implies (#[trigger] all[i]).key != (
    #[trigger] all[j]).key by {
        assert(key_place(all[i].key) == i);
        assert(key_place(all[j].key) == j);
    }
}

/// Where a key stands in the list, from its length and some of its characters.
spec fn key_place(key: Seq<char>) -> int {
    if key[0] == 'f' {
        0
    } else if key[0] == 'c' {
        if key.len() == 9 {
            4
        } else if key[6] == '1' {
            1
        } else if key[6] == '2' {
            2
        } else {
            3
        }
    } else if key[0] == 't' {
        if key[5] == '1' {
            5
        } else {
            6
        }
    } else if key[0] == 'o' {
        if key.len() == 4 {
            7
        } else {
            8
        }
    } else if key[0] == 's' {
        if key.len() == 6 {
            9
        } else {
            11
        }
    } else if key[0] == 'm' {
        10
    } else if key[0] == 'e' {
        12
    } else if key[0] == 'n' {
        13
    } else {
        14
    }
}

proof fn lemma_achievement(log: Seq<Row>, i: int)
    requires
        0 <= i < 15,
    ensures
        achievement(milestones_of(log), milestones_of(log).achievements[i].key)
            == milestones_of(log).achievements[i],
{
    achievements_are_listed(log);
    let all = milestones_of(log).achievements;
    let key = all[i].key;
    let k = choose|k: int| 0 <= k < all.len() && (#[trigger] all[k]).key == key;
    assert(0 <= k < 15 && all[k].key == key);
    if k < i {
        assert(all[k].key != all[i].key);
    } else if i < k {
        assert(all[i].key != all[k].key);
    }
}

/// Row `i` of the log was caught and is of the kind.
pub open spec fn caught_one(log: Seq<Row>, kind: spec_fn(Row) -> bool, i: int) -> bool {
    0 <= i < log.len() && log[i].caught_at is Some && kind(log[i])
}

/// The achievement is unlocked exactly where a caught row of the log is of the kind, and it is
/// dated by the earliest catch of one.
pub open spec fn dated_by_first(log: Seq<Row>, a: Award, kind: spec_fn(Row) -> bool) -> bool {
    &&& a.unlocked <==> exists|i: int| caught_one(log, kind, i)
    &&& a.unlocked <==> a.at is Some
    &&& forall|i: int| #[trigger]
        caught_one(log, kind, i) ==> a.at is Some && a.at->0 <= log[i].caught_at->0
    &&& a.unlocked ==> exists|i: int| #[trigger]
        caught_one(log, kind, i) && log[i].caught_at == a.at
}

proof fn lemma_first_catch(log: Seq<Row>, kind: EventKind, f: spec_fn(Row) -> bool)
    requires
        forall|r: Row| #[trigger] kind.fits(r) == f(r),
    ensures
        ({
            let at = first_catch(dex_rows(log), kind);
            &&& forall|i: int| #[trigger]
                caught_one(log, f, i) ==> at is Some && at->0 <= log[i].caught_at->0
            &&& at is Some ==> exists|i: int| #[trigger]
                caught_one(log, f, i) && log[i].caught_at == at
        }),
    decreases log.len(),
{
    if log.len() > 0 {
        let less = log.drop_last();
        let last = log.len() - 1;
        lemma_first_catch(less, kind, f);
        let (a, b) = (first_catch(dex_rows(log), kind), first_catch(dex_rows(less), kind));
        if log[last].caught_at is Some {
            assert(dex_rows(log).drop_last() =~= dex_rows(less));
            assert(kind.fits(log[last]) == f(log[last]));
        }
        assert forall|i: int| #[trigger] caught_one(log, f, i) implies a is Some && a->0
            <= log[i].caught_at->0 by {
            if i < last {
                assert(less[i] == log[i]);
                assert(caught_one(less, f, i));
            }
        }
        if a is Some {
            if b == a {
                let i = choose|i: int| #[trigger]
                    caught_one(less, f, i) && less[i].caught_at == b;
                assert(caught_one(log, f, i) && log[i].caught_at == a);
            } else {
                assert(caught_one(log, f, last) && log[last].caught_at == a);
            }
        }
    }
}

/// A catch unlocks the achievement of its kind, and the earliest such catch dates it: one that
/// wears any of the squawks 7500, 7600 and 7700 that for emergencies, one that wears 7600 that for
/// a lost radio, one that wears 7500 that for a hijack, one that was logged as military and one
/// that is notable theirs. Without such a catch the achievement is locked.
pub proof fn catches_unlock_their_achievement(log: Seq<Row>)
    ensures
        dated_by_first(
            log,
            achievement(milestones_of(log), "emergency"@),
            |r: Row|
                r.squawk == Some("7500"@) || r.squawk == Some("7600"@) || r.squawk == Some(
                    "7700"@,
                ),
        ),
        dated_by_first(
            log,
            achievement(milestones_of(log), "nordo"@),
            |r: Row| r.squawk == Some("7600"@),
        ),
        dated_by_first(
            log,
            achievement(milestones_of(log), "hijack"@),
            |r: Row| r.squawk == Some("7500"@),
        ),
        dated_by_first(
            log,
            achievement(milestones_of(log), "military"@),
            |r: Row| r.notable_reason == Some("military"@),
        ),
        dated_by_first(log, achievement(milestones_of(log), "shiny"@), |r: Row| r.notable),
{
    achievements_are_listed(log);
    lemma_achievement(log, 10);
    lemma_achievement(log, 11);
    lemma_achievement(log, 12);
    lemma_achievement(log, 13);
    lemma_achievement(log, 14);
    lemma_first_catch(
        log,
        EventKind::EmergencySquawk,
        |r: Row|
            r.squawk == Some("7500"@) || r.squawk == Some("7600"@) || r.squawk == Some("7700"@),
    );
    lemma_first_catch(log, EventKind::RadioFailure, |r: Row| r.squawk == Some("7600"@));
    lemma_first_catch(log, EventKind::Hijack, |r: Row| r.squawk == Some("7500"@));
    lemma_first_catch(
        log,
        EventKind::Military,
        |r: Row| r.notable_reason == Some("military"@),
    );
    lemma_first_catch(log, EventKind::Notable, |r: Row| r.notable);
}

/// The distinct texts that `of` gives for some rows.
pub open spec fn texts_among(
    rows: Seq<Row>,
    of: spec_fn(Row) -> Option<Seq<char>>,
) -> Set<Seq<char>> {
    Set::new(|t: Seq<char>| exists|i: int| 0 <= i < rows.len() && of(#[trigger] rows[i]) == Some(t))
}

/// The type code of a row, none where it is empty.
pub open spec fn known_type(r: Row) -> Option<Seq<char>> {
    if r.type_code is Some && r.type_code->0.len() > 0 {
        r.type_code
    } else {
        None
    }
}

proof fn lemma_figures(rows: Seq<Row>)
    ensures
        distinct(known_types(rows)).len() == texts_among(rows, |r: Row| known_type(r)).len(),
        texts_among(rows, |r: Row| known_type(r)).finite(),
        distinct(operators_in(rows)).len() == texts_among(rows, |r: Row| r.operator).len(),
        texts_among(rows, |r: Row| r.operator).finite(),
{
    let (a, b) = (distinct(known_types(rows)), distinct(operators_in(rows)));
    distinct_keeps_each_once(known_types(rows));
    distinct_keeps_each_once(operators_in(rows));
    a.unique_seq_to_set();
    b.unique_seq_to_set();
    let f = |r: Row| known_type(r);
    let g = |r: Row| r.operator;
    assert forall|t: Seq<char>| a.to_set().contains(t) <==> texts_among(rows, f).contains(t) by {
        lemma_listed(rows, t);
        if known_types(rows).contains(t) {
            let i = choose|i: int| 0 <= i < rows.len() && of_type(#[trigger] rows[i], t);
            assert(f(rows[i]) == Some(t));
        }
        if texts_among(rows, f).contains(t) {
            let i = choose|i: int| 0 <= i < rows.len() && f(#[trigger] rows[i]) == Some(t);
            assert(of_type(rows[i], t));
        }
        assert(a.contains(t) <==> known_types(rows).contains(t));
    }
    assert forall|t: Seq<char>| b.to_set().contains(t) <==> texts_among(rows, g).contains(t) by {
        lemma_listed(rows, t);
        if operators_in(rows).contains(t) {
            let i = choose|i: int| 0 <= i < rows.len() && (#[trigger] rows[i]).operator == Some(t);
            assert(g(rows[i]) == Some(t));
        }
        if texts_among(rows, g).contains(t) {
            let i = choose|i: int| 0 <= i < rows.len() && g(#[trigger] rows[i]) == Some(t);
            assert(rows[i].operator == Some(t));
        }
        assert(b.contains(t) <==> operators_in(rows).contains(t));
    }
    assert(a.to_set() =~= texts_among(rows, f));
    assert(b.to_set() =~= texts_among(rows, g));
}

proof fn lemma_notable_rows(rows: Seq<Row>)
    ensures
        notable_count(rows) == rows.filter(|r: Row| r.notable).len(),
    decreases rows.len(),
{
    reveal(Seq::filter);
    if rows.len() > 0 {
        lemma_notable_rows(rows.drop_last());
    }
}

/// The figures count rows of the log: all of them as seen, those that were caught as caught, the
/// notable ones among these as shiny, and the different types and operators that these have.
pub proof fn figures_count_rows(log: Seq<Row>)
    ensures
        ({
            let all = milestones_of(log);
            let dex = log.filter(|r: Row| r.caught_at is Some);
            &&& all.total_seen == log.len()
            &&& all.total_caught == dex.len()
            &&& all.shinies == dex.filter(|r: Row| r.notable).len()
            &&& all.distinct_types == texts_among(dex, |r: Row| known_type(r)).len()
            &&& all.distinct_operators == texts_among(dex, |r: Row| r.operator).len()
        }),
{
    dex_holds_the_caught_rows(log);
    lemma_figures(dex_rows(log));
    lemma_notable_rows(dex_rows(log));
}

/// An achievement for a count is unlocked exactly where its figure has reached the target, and
/// notes the progress until then.
pub proof fn counts_unlock_their_achievement(log: Seq<Row>)
    ensures
        achievement(milestones_of(log), "first"@).unlocked <==> milestones_of(log).total_caught >= 1,
        achievement(milestones_of(log), "caught10"@).unlocked <==> milestones_of(log).total_caught >= 10,
        achievement(milestones_of(log), "caught25"@).unlocked <==> milestones_of(log).total_caught >= 25,
        achievement(milestones_of(log), "caught50"@).unlocked <==> milestones_of(log).total_caught >= 50,
        achievement(milestones_of(log), "caught100"@).unlocked <==> milestones_of(log).total_caught >= 100,
        achievement(milestones_of(log), "types10"@).unlocked <==> milestones_of(log).distinct_types >= 10,
        achievement(milestones_of(log), "types25"@).unlocked <==> milestones_of(log).distinct_types >= 25,
        achievement(milestones_of(log), "ops5"@).unlocked <==> milestones_of(log).distinct_operators >= 5,
        achievement(milestones_of(log), "ops10"@).unlocked <==> milestones_of(log).distinct_operators >= 10,
        achievement(milestones_of(log), "shiny5"@).unlocked <==> milestones_of(log).shinies >= 5,
        milestones_of(log).total_caught < 1 ==> achievement(milestones_of(log), "first"@).note == decimal(
            milestones_of(log).total_caught,
        ) + " / "@ + decimal(1),
        milestones_of(log).total_caught < 10 ==> achievement(milestones_of(log), "caught10"@).note == decimal(
            milestones_of(log).total_caught,
        ) + " / "@ + decimal(10),
        milestones_of(log).total_caught < 25 ==> achievement(milestones_of(log), "caught25"@).note == decimal(
            milestones_of(log).total_caught,
        ) + " / "@ + decimal(25),
        milestones_of(log).total_caught < 50 ==> achievement(milestones_of(log), "caught50"@).note == decimal(
            milestones_of(log).total_caught,
        ) + " / "@ + decimal(50),
        milestones_of(log).total_caught < 100 ==> achievement(milestones_of(log), "caught100"@).note == decimal(
            milestones_of(log).total_caught,
        ) + " / "@ + decimal(100),
        milestones_of(log).distinct_types < 10 ==> achievement(milestones_of(log), "types10"@).note == decimal(
            milestones_of(log).distinct_types,
        ) + " / "@ + decimal(10),
        milestones_of(log).distinct_types < 25 ==> achievement(milestones_of(log), "types25"@).note == decimal(
            milestones_of(log).distinct_types,
        ) + " / "@ + decimal(25),
        milestones_of(log).distinct_operators < 5 ==> achievement(milestones_of(log), "ops5"@).note == decimal(
            milestones_of(log).distinct_operators,
        ) + " / "@ + decimal(5),
        milestones_of(log).distinct_operators < 10 ==> achievement(milestones_of(log), "ops10"@).note == decimal(
            milestones_of(log).distinct_operators,
        ) + " / "@ + decimal(10),
        milestones_of(log).shinies < 5 ==> achievement(milestones_of(log), "shiny5"@).note == decimal(
            milestones_of(log).shinies,
        ) + " / "@ + decimal(5),
        forall|k: int|
            0 <= k < 10 && (#[trigger] milestones_of(log).achievements[k]).unlocked
                ==> milestones_of(log).achievements[k].note == "unlocked"@,
        forall|k: int|
            0 <= k < 10 && !(#[trigger] milestones_of(log).achievements[k]).unlocked
                ==> milestones_of(log).achievements[k].at is None,
{
    achievements_are_listed(log);
    lemma_achievement(log, 0);
    lemma_achievement(log, 1);
    lemma_achievement(log, 2);
    lemma_achievement(log, 3);
    lemma_achievement(log, 4);
    lemma_achievement(log, 5);
    lemma_achievement(log, 6);
    lemma_achievement(log, 7);
    lemma_achievement(log, 8);
    lemma_achievement(log, 9);
}

/// The rows that were caught before a time.
pub open spec fn caught_before(log: Seq<Row>, at: i64) -> Seq<Row> {
    log.filter(|r: Row| r.caught_at is Some && r.caught_at->0 < at)
}

/// The rows that were caught up to a time.
pub open spec fn caught_until(log: Seq<Row>, at: i64) -> Seq<Row> {
    log.filter(|r: Row| r.caught_at is Some && r.caught_at->0 <= at)
}

/// The achievement is dated by the catch that reached the target: over the catches before that
/// time the figure is short of it, and over those up to it it is not.
pub open spec fn dated_by_count(
    log: Seq<Row>,
    a: Award,
    target: int,
    figure: spec_fn(Seq<Row>) -> int,
) -> bool {
    a.unlocked ==> a.at is Some && figure(caught_before(log, a.at->0)) < target && figure(
        caught_until(log, a.at->0),
    ) >= target
}

spec fn mask(rows: Seq<Row>, pred: spec_fn(Row) -> bool) -> Seq<(Seq<char>, int)> {
    rows.map_values(
        |r: Row|
            (
                r.hex,
                if pred(r) {
                    1
                } else {
                    0
                },
            ),
    )
}

proof fn lemma_mask(rows: Seq<Row>, pred: spec_fn(Row) -> bool)
    ensures
        count_sum(mask(rows, pred)) == rows.filter(pred).len(),
        count_sum(mask(rows, |r: Row| pred(r) && r.notable)) == notable_count(rows.filter(pred)),
    decreases rows.len(),
{
    reveal(Seq::filter);
    let both = |r: Row| pred(r) && r.notable;
    if rows.len() > 0 {
        let less = rows.drop_last();
        lemma_mask(less, pred);
        assert(mask(rows, pred).drop_last() =~= mask(less, pred));
        assert(mask(rows, both).drop_last() =~= mask(less, both));
        if pred(rows.last()) {
            assert(rows.filter(pred).drop_last() =~= less.filter(pred));
        }
    }
}

proof fn lemma_filter_members(rows: Seq<Row>, pred: spec_fn(Row) -> bool, r: Row)
    ensures
        rows.filter(pred).contains(r) <==> rows.contains(r) && pred(r),
    decreases rows.len(),
{
    reveal(Seq::filter);
    if rows.len() > 0 {
        let less = rows.drop_last();
        let last = rows.len() - 1;
        lemma_filter_members(less, pred, r);
        let (a, b) = (rows.filter(pred), less.filter(pred));
        if b.contains(r) {
            let k = choose|k: int| 0 <= k < b.len() && b[k] == r;
            assert(a[k] == r);
        }
        if less.contains(r) {
            let k = choose|k: int| 0 <= k < less.len() && less[k] == r;
            assert(rows[k] == r);
        }
        if pred(rows[last]) {
            assert(a[b.len() as int] == rows[last]);
        }
        assert(rows[last] == rows.last());
        if rows.contains(r) && r != rows[last] {
            let k = choose|k: int| 0 <= k < rows.len() && rows[k] == r;
            assert(less[k] == r);
        }
        if a.contains(r) && !b.contains(r) {
            let k = choose|k: int| 0 <= k < a.len() && a[k] == r;
            if k < b.len() {
                assert(b[k] == r);
            }
        }
    }
}

/// A count over the caught rows that fit does not depend on their order.
proof fn lemma_count_filtered(dex: Seq<Row>, tally: Tally, pred: spec_fn(Row) -> bool)
    ensures
        tally.count(by_time(dex).filter(pred)) == tally.count(dex.filter(pred)),
{
    let times = dex.map_values(|r: Row| r.caught_at->0 as int);
    let p = ranking(times);
    stable_order_exists(times);
    lemma_ranking_len(times, p);
    let sorted = by_time(dex);
    let both = |r: Row| pred(r) && r.notable;
    lemma_mask(dex, pred);
    lemma_mask(sorted, pred);
    lemma_sum_arranged(mask(dex, pred), p);
    lemma_sum_arranged(mask(dex, both), p);
    assert(arranged(mask(dex, pred), p) =~= mask(sorted, pred));
    assert(arranged(mask(dex, both), p) =~= mask(sorted, both));
    let (a, b) = (sorted.filter(pred), dex.filter(pred));
    assert forall|r: Row| sorted.contains(r) <==> dex.contains(r) by {
        if sorted.contains(r) {
            let k = choose|k: int| 0 <= k < sorted.len() && sorted[k] == r;
            assert(dex[p[k]] == r);
        }
        if dex.contains(r) {
            let i = choose|i: int| 0 <= i < dex.len() && dex[i] == r;
            assert(p.contains(i));
            let k = choose|k: int| 0 <= k < p.len() && p[k] == i;
            assert(sorted[k] == r);
        }
    }
    assert forall|i: int| 0 <= i < a.len() implies b.contains(#[trigger] a[i]) by {
        lemma_filter_members(sorted, pred, a[i]);
        lemma_filter_members(dex, pred, a[i]);
        assert(a.contains(a[i]));
    }
    assert forall|i: int| 0 <= i < b.len() implies a.contains(#[trigger] b[i]) by {
        lemma_filter_members(sorted, pred, b[i]);
        lemma_filter_members(dex, pred, b[i]);
        assert(b.contains(b[i]));
    }
    assert forall|t: Seq<char>|
        (known_types(a).contains(t) <==> known_types(b).contains(t)) && (operators_in(a).contains(t)
            <==> operators_in(b).contains(t)) by {
        lemma_listed(a, t);
        lemma_listed(b, t);
        lemma_same_rows(a, b, t);
        lemma_same_rows(b, a, t);
    }
    lemma_same_texts(known_types(a), known_types(b));
    lemma_same_texts(operators_in(a), operators_in(b));
}

/// Of rows in the order in which they were caught, those that were caught up to a limit are the
/// first ones.
proof fn lemma_early_rows(rows: Seq<Row>, pred: spec_fn(Row) -> bool) -> (m: int)
    requires
        forall|x: int, y: int|
            0 <= x < y < rows.len() && pred(#[trigger] rows[y]) ==> pred(#[trigger] rows[x]),
    ensures
        0 <= m <= rows.len(),
        rows.filter(pred) == rows.take(m),
        forall|x: int| 0 <= x < m ==> pred(#[trigger] rows[x]),
        forall|x: int| m <= x < rows.len() ==> !pred(#[trigger] rows[x]),
    decreases rows.len(),
{
    reveal(Seq::filter);
    if rows.len() == 0 {
        assert(rows.filter(pred) =~= rows.take(0));
        0
    } else {
        let less = rows.drop_last();
        let last = rows.len() - 1;
        assert forall|x: int, y: int| 0 <= x < y < less.len() && pred(#[trigger] less[y]) implies pred(
            #[trigger] less[x],
        ) by {
            assert(less[y] == rows[y] && less[x] == rows[x]);
        }
        let m = lemma_early_rows(less, pred);
        assert forall|x: int| 0 <= x < m implies pred(#[trigger] rows[x]) by {
            assert(less[x] == rows[x]);
        }
        if pred(rows[last]) {
            if m < less.len() {
                assert(!pred(less[m]));
                assert(pred(rows[m]));
            }
            assert(less.take(m) =~= less);
            assert(rows.filter(pred) =~= rows.take(rows.len() as int));
            rows.len() as int
        } else {
            assert forall|x: int| m <= x < rows.len() implies !pred(#[trigger] rows[x]) by {
                if x < last {
                    assert(less[x] == rows[x]);
                }
            }
            assert(less.take(m) =~= rows.take(m));
            m
        }
    }
}

proof fn lemma_count_grows(rows: Seq<Row>, tally: Tally, n: int, m: int)
    requires
        0 <= n <= m <= rows.len(),
    ensures
        tally.count(rows.take(n)) <= tally.count(rows.take(m)),
    decreases m - n,
{
    if n < m {
        lemma_count_grows(rows, tally, n, m - 1);
        let (a, b) = (rows.take(m), rows.take(m - 1));
        assert(a.drop_last() == b);
        let (v, w) = (known_types(a), known_types(b));
        if v.len() > w.len() {
            assert(v.drop_last() =~= w);
        }
        let (x, y) = (operators_in(a), operators_in(b));
        if x.len() > y.len() {
            assert(x.drop_last() =~= y);
        }
    }
}

proof fn lemma_dated(log: Seq<Row>, tally: Tally, target: int)
    requires
        1 <= target <= tally.count(dex_rows(log)),
    ensures
        ({
            let at = reached_at(by_time(dex_rows(log)), tally, target);
            &&& at is Some
            &&& tally.count(caught_before(log, at->0)) < target
            &&& tally.count(caught_until(log, at->0)) >= target
        }),
{
    let dex = dex_rows(log);
    let sorted = by_time(dex);
    let times = dex.map_values(|r: Row| r.caught_at->0 as int);
    let p = ranking(times);
    lemma_dex_rows(log);
    unlocked_counts_are_dated(dex, tally, target);
    let n = choose|n: int| #[trigger]
        reaches(sorted, tally, target, n) && sorted[n - 1].caught_at is Some && reached_at(
            sorted,
            tally,
            target,
        ) == sorted[n - 1].caught_at;
    let at = sorted[n - 1].caught_at->0;
    stable_order_exists(times);
    lemma_ranking_len(times, p);
    assert forall|x: int, y: int| 0 <= x < y < sorted.len() implies (
    #[trigger] sorted[x]).caught_at->0 <= (#[trigger] sorted[y]).caught_at->0 by {
        assert(before(times, p[x], p[y]));
        assert(sorted[x] == dex[p[x]] && sorted[y] == dex[p[y]]);
    }
    assert forall|x: int| 0 <= x < sorted.len() implies (#[trigger] sorted[x]).caught_at is Some by {
        assert(sorted[x] == dex[p[x]]);
        assert(dex[p[x]].caught_at is Some);
    }
    let early = |r: Row| r.caught_at is Some && r.caught_at->0 < at;
    let until = |r: Row| r.caught_at is Some && r.caught_at->0 <= at;
    let m = lemma_early_rows(sorted, early);
    let k = lemma_early_rows(sorted, until);
    assert(m < n) by {
        if m >= n {
            assert(early(sorted[n - 1]));
        }
    }
    assert(k >= n) by {
        if k < n {
            assert(!until(sorted[n - 1]));
        }
    }
    assert(tally.count(sorted.take(m)) < target);
    lemma_count_grows(sorted, tally, n, k);
    lemma_count_filtered(dex, tally, early);
    lemma_count_filtered(dex, tally, until);
    dex_holds_the_caught_rows(log);
    lemma_filter_twice(log, early);
    lemma_filter_twice(log, until);
}

proof fn lemma_filter_twice(log: Seq<Row>, pred: spec_fn(Row) -> bool)
    requires
        forall|r: Row| #[trigger] pred(r) ==> r.caught_at is Some,
    ensures
        log.filter(|r: Row| r.caught_at is Some).filter(pred) == log.filter(pred),
    decreases log.len(),
{
    reveal(Seq::filter);
    let some = |r: Row| r.caught_at is Some;
    if log.len() > 0 {
        let less = log.drop_last();
        lemma_filter_twice(less, pred);
        if some(log.last()) {
            assert(log.filter(some).drop_last() =~= less.filter(some));
        }
        assert(pred(log.last()) ==> some(log.last()));
    }
}

/// An achievement for a count is dated by the catch that reached its target: 1, 10, 25, 50 and 100
/// catches, 10 and 25 types, 5 and 10 operators, 5 notable catches.
pub proof fn counts_date_their_achievement(log: Seq<Row>)
    ensures
        dated_by_count(
            log,
            achievement(milestones_of(log), "first"@),
            1,
            |rows: Seq<Row>| rows.len() as int,
        ),
        dated_by_count(
            log,
            achievement(milestones_of(log), "caught10"@),
            10,
            |rows: Seq<Row>| rows.len() as int,
        ),
        dated_by_count(
            log,
            achievement(milestones_of(log), "caught25"@),
            25,
            |rows: Seq<Row>| rows.len() as int,
        ),
        dated_by_count(
            log,
            achievement(milestones_of(log), "caught50"@),
            50,
            |rows: Seq<Row>| rows.len() as int,
        ),
        dated_by_count(
            log,
            achievement(milestones_of(log), "caught100"@),
            100,
            |rows: Seq<Row>| rows.len() as int,
        ),
        dated_by_count(
            log,
            achievement(milestones_of(log), "types10"@),
            10,
            |rows: Seq<Row>| texts_among(rows, |r: Row| known_type(r)).len() as int,
        ),
        dated_by_count(
            log,
            achievement(milestones_of(log), "types25"@),
            25,
            |rows: Seq<Row>| texts_among(rows, |r: Row| known_type(r)).len() as int,
        ),
        dated_by_count(
            log,
            achievement(milestones_of(log), "ops5"@),
            5,
            |rows: Seq<Row>| texts_among(rows, |r: Row| r.operator).len() as int,
        ),
        dated_by_count(
            log,
            achievement(milestones_of(log), "ops10"@),
            10,
            |rows: Seq<Row>| texts_among(rows, |r: Row| r.operator).len() as int,
        ),
        dated_by_count(
            log,
            achievement(milestones_of(log), "shiny5"@),
            5,
            |rows: Seq<Row>| rows.filter(|r: Row| r.notable).len() as int,
        ),
{
    achievements_are_listed(log);
    let dex = dex_rows(log);
    assert forall|at: i64|
        ({
            let (a, b) = (#[trigger] caught_before(log, at), caught_until(log, at));
            &&& Tally::Types.count(a) == texts_among(a, |r: Row| known_type(r)).len()
            &&& Tally::Types.count(b) == texts_among(b, |r: Row| known_type(r)).len()
            &&& Tally::Operators.count(a) == texts_among(a, |r: Row| r.operator).len()
            &&& Tally::Operators.count(b) == texts_among(b, |r: Row| r.operator).len()
            &&& Tally::Shinies.count(a) == a.filter(|r: Row| r.notable).len()
            &&& Tally::Shinies.count(b) == b.filter(|r: Row| r.notable).len()
        }) by {
        lemma_figures(caught_before(log, at));
        lemma_figures(caught_until(log, at));
        lemma_notable_rows(caught_before(log, at));
        lemma_notable_rows(caught_until(log, at));
    }
    lemma_achievement(log, 0);
    if 1 <= Tally::Catches.count(dex) {
        lemma_dated(log, Tally::Catches, 1);
    }
    lemma_achievement(log, 1);
    if 10 <= Tally::Catches.count(dex) {
        lemma_dated(log, Tally::Catches, 10);
    }
    lemma_achievement(log, 2);
    if 25 <= Tally::Catches.count(dex) {
        lemma_dated(log, Tally::Catches, 25);
    }
    lemma_achievement(log, 3);
    if 50 <= Tally::Catches.count(dex) {
        lemma_dated(log, Tally::Catches, 50);
    }
    lemma_achievement(log, 4);
    if 100 <= Tally::Catches.count(dex) {
        lemma_dated(log, Tally::Catches, 100);
    }
    lemma_achievement(log, 5);
    if 10 <= Tally::Types.count(dex) {
        lemma_dated(log, Tally::Types, 10);
    }
    lemma_achievement(log, 6);
    if 25 <= Tally::Types.count(dex) {
        lemma_dated(log, Tally::Types, 25);
    }
    lemma_achievement(log, 7);
    if 5 <= Tally::Operators.count(dex) {
        lemma_dated(log, Tally::Operators, 5);
    }
    lemma_achievement(log, 8);
    if 10 <= Tally::Operators.count(dex) {
        lemma_dated(log, Tally::Operators, 10);
    }
    lemma_achievement(log, 9);
    if 5 <= Tally::Shinies.count(dex) {
        lemma_dated(log, Tally::Shinies, 5);
    }
}

} // verus!
