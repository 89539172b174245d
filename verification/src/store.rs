//! The sightings log: one row per airframe, keyed on its hex address.
//!
//! Passive polling fills the log; a deliberate catch stamps `caught_at` and so promotes a logged
//! contact into the dex. Every view is a query over this one log.
use vstd::prelude::*;

use crate::classify::{Contact, UiAircraft};
use crate::clock::now_secs;
use crate::double::Double;
use crate::feeds::AltitudeView;
use crate::milestones::{
    lemma_dex_rows, milestones_of, notable_count, summarize, Milestones, Summary,
};
use crate::order::{
    arranged, before, key_view, position_view, rank, ranking, stable_order, stable_order_exists,
};
use crate::rarity::{
    all_counted, count_sum, count_view, rarity, rarity_tiers, tiers_are_for_counted_types,
    tiers_go_by_the_share_ahead, Rarity,
};
use crate::sighting::{
    coordinate, dex_rows, first_row, known_types, next_row, notable_is_emergency_or_interest, row_views,
    salient_reason, types_are_listed_row_by_row, Row, Sighting,
};
use crate::table::Table;
use crate::text::{
    copy_text, dedup, distinct, distinct_keeps_each_once, same_text, text_of, texts_of,
};

verus! {

/// `hex` stands in row `i`.
pub open spec fn row_at(log: Seq<Row>, hex: Seq<char>, i: int) -> bool {
    0 <= i < log.len() && log[i].hex == hex
}

/// The log has a row for `hex`.
pub open spec fn logged(log: Seq<Row>, hex: Seq<char>) -> bool {
    exists|i: int| row_at(log, hex, i)
}

/// The row that the log has for `hex`.
pub open spec fn row_index(log: Seq<Row>, hex: Seq<char>) -> int {
    choose|i: int| row_at(log, hex, i)
}

/// One row per airframe, and none without an address.
pub open spec fn keyed(log: Seq<Row>) -> bool {
    &&& forall|i: int, j: int|
        0 <= i < j < log.len() ==> #[trigger] log[i].hex != #[trigger] log[j].hex
    &&& forall|i: int| 0 <= i < log.len() ==> #[trigger] log[i].hex.len() > 0
}

/// The log after a sighting: a contact without an address is passed over, a known one updates
/// its row, a new one gets a row.
pub open spec fn recorded(log: Seq<Row>, c: Contact, now: i64) -> Seq<Row> {
    if c.hex.len() == 0 {
        log
    } else if logged(log, c.hex) {
        log.update(row_index(log, c.hex), next_row(log[row_index(log, c.hex)], c, now))
    } else {
        log.push(first_row(c, now))
    }
}

/// The log after a list of sightings, in order.
pub open spec fn recorded_all(log: Seq<Row>, cs: Seq<Contact>, now: i64) -> Seq<Row>
    decreases cs.len(),
{
    if cs.len() == 0 {
        log
    } else {
        recorded(recorded_all(log, cs.drop_last(), now), cs.last(), now)
    }
}

/// A catch of `hex` would promote its row: it is logged and not caught yet.
pub open spec fn catchable(log: Seq<Row>, hex: Seq<char>) -> bool {
    logged(log, hex) && log[row_index(log, hex)].caught_at is None
}

/// The log after a catch of `hex`.
pub open spec fn caught(log: Seq<Row>, hex: Seq<char>, now: i64) -> Seq<Row> {
    if catchable(log, hex) {
        let i = row_index(log, hex);
        log.update(i, Row { caught_at: Some(now), ..log[i] })
    } else {
        log
    }
}

/// The views of a list of contacts.
pub open spec fn contact_views(v: Seq<UiAircraft>) -> Seq<Contact> {
    v.map_values(|a: UiAircraft| a@)
}

/// One caught airframe, for the dex view. Unix-second time stamps.
#[derive(Debug)]
pub struct DexEntry {
    pub hex: String,
    pub registration: Option<String>,
    pub type_code: Option<String>,
    pub type_desc: Option<String>,
    pub operator: Option<String>,
    pub callsign: Option<String>,
    pub squawk: Option<String>,
    pub notable: bool,
    pub notable_reason: Option<String>,
    pub caught_at: i64,
    pub first_seen_at: i64,
    pub last_seen_at: i64,
    pub seen_count: i64,
    /// Tier from the log's own type frequencies: common, uncommon, rare or legendary. `None` when
    /// the type is unknown.
    pub rarity: Option<String>,
}

/// A dex entry, over character sequences.
#[verifier::ext_equal]
pub ghost struct DexRow {
    pub hex: Seq<char>,
    pub registration: Option<Seq<char>>,
    pub type_code: Option<Seq<char>>,
    pub type_desc: Option<Seq<char>>,
    pub operator: Option<Seq<char>>,
    pub callsign: Option<Seq<char>>,
    pub squawk: Option<Seq<char>>,
    pub notable: bool,
    pub notable_reason: Option<Seq<char>>,
    pub caught_at: i64,
    pub first_seen_at: i64,
    pub last_seen_at: i64,
    pub seen_count: i64,
    pub rarity: Option<Seq<char>>,
}

impl View for DexEntry {
    type V = DexRow;

    open spec fn view(&self) -> DexRow {
        DexRow {
            hex: self.hex@,
            registration: text_of(self.registration),
            type_code: text_of(self.type_code),
            type_desc: text_of(self.type_desc),
            operator: text_of(self.operator),
            callsign: text_of(self.callsign),
            squawk: text_of(self.squawk),
            notable: self.notable,
            notable_reason: text_of(self.notable_reason),
            caught_at: self.caught_at,
            first_seen_at: self.first_seen_at,
            last_seen_at: self.last_seen_at,
            seen_count: self.seen_count,
            rarity: text_of(self.rarity),
        }
    }
}

/// The views of a list of dex entries.
pub open spec fn dex_views(v: Seq<DexEntry>) -> Seq<DexRow> {
    v.map_values(|e: DexEntry| e@)
}

/// How often `t` occurs.
pub open spec fn occurrences(v: Seq<Seq<char>>, t: Seq<char>) -> int
    decreases v.len(),
{
    if v.len() == 0 {
        0
    } else if v.last() == t {
        occurrences(v.drop_last(), t) + 1
    } else {
        occurrences(v.drop_last(), t)
    }
}

/// How many airframes of each known type are logged, in the order in which the types first
/// appear.
pub open spec fn type_counts(log: Seq<Row>) -> Seq<(Seq<char>, int)> {
    distinct(known_types(log)).map_values(|t: Seq<char>| (t, occurrences(known_types(log), t)))
}

/// The tier of each logged type, calibrated over the whole log.
pub open spec fn type_tiers(log: Seq<Row>) -> Map<Seq<char>, Rarity> {
    rarity(type_counts(log))
}

/// The tier of a caught row: a notable catch is always legendary, any other has the tier of its
/// type.
pub open spec fn row_rarity(row: Row, tiers: Map<Seq<char>, Rarity>) -> Option<Seq<char>> {
    if row.notable {
        Some("legendary"@)
    } else {
        match row.type_code {
            Some(t) => if tiers.contains_key(t) {
                Some(tiers[t].name())
            } else {
                None
            },
            None => None,
        }
    }
}

/// The dex entry of a caught row.
pub open spec fn dex_row(row: Row, tiers: Map<Seq<char>, Rarity>) -> DexRow {
    DexRow {
        hex: row.hex,
        registration: row.registration,
        type_code: row.type_code,
        type_desc: row.type_desc,
        operator: row.operator,
        callsign: row.callsign,
        squawk: row.squawk,
        notable: row.notable,
        notable_reason: row.notable_reason,
        caught_at: row.caught_at->0,
        first_seen_at: row.first_seen_at,
        last_seen_at: row.last_seen_at,
        seen_count: row.seen_count,
        rarity: row_rarity(row, tiers),
    }
}

/// The caught rows, newest catch first, ties in log order.
pub open spec fn newest_first(log: Seq<Row>) -> Seq<Row> {
    let rows = dex_rows(log);
    arranged(rows, ranking(rows.map_values(|r: Row| -(r.caught_at->0 as int))))
}

/// The dex: every caught airframe, newest catch first.
pub open spec fn dex_of(log: Seq<Row>) -> Seq<DexRow> {
    newest_first(log).map_values(|r: Row| dex_row(r, type_tiers(log)))
}

/// The sightings log, or a stand-in that holds nothing where the log is unavailable.
pub struct Store {
    rows: Option<Vec<Sighting>>,
}

impl Store {
    /// The rows, or `None` where the log is unavailable.
    pub closed spec fn view(&self) -> Option<Seq<Row>> {
        match self.rows {
            Some(v) => Some(row_views(v@)),
            None => None,
        }
    }

    /// One row per airframe.
    pub open spec fn wf(&self) -> bool {
        self@ matches Some(log) ==> keyed(log)
    }

    /// A store over the given rows. Rows without an address, and rows whose address has come
    /// before, are left out.
    pub fn open(rows: Vec<Sighting>) -> (r: Store)
        ensures
            r.wf(),
            r@ is Some,
            keyed(row_views(rows@)) ==> r@ == Some(row_views(rows@)),
            r@->0 == distinct_rows(row_views(rows@)),
    {
        let ghost all = row_views(rows@);
        let mut kept: Vec<Sighting> = Vec::new();
        assert(row_views(kept@) =~= distinct_rows(all.take(0)));
        for s in it: rows
            invariant
                it.seq() == rows@,
                all == row_views(rows@),
                row_views(kept@) == distinct_rows(all.take(it.index())),
                keyed(row_views(kept@)),
        {
            let ghost i = it.index();
            let ghost before = row_views(kept@);
            assert(all.take(i + 1).drop_last() == all.take(i));
            assert(all.take(i + 1).last() == s@);
            if !s.hex.as_str().is_empty() && find(&kept, s.hex.as_str()).is_none() {
                kept.push(s);
                assert(row_views(kept@) =~= before.push(s@));
                assert forall|a: int, b: int| 0 <= a < b < row_views(kept@).len() implies
                    #[trigger] row_views(kept@)[a].hex != #[trigger] row_views(kept@)[b].hex by {
                    if b == before.len() {
                        assert(!row_at(before, s@.hex, a));
                    }
                }
            }
        }
        assert(all.take(all.len() as int) == all);
        proof {
            if keyed(all) {
                lemma_distinct_rows(all);
            }
        }
        Store { rows: Some(kept) }
    }

    /// A store whose log could not be opened.
    pub fn unavailable() -> (r: Store)
        ensures
            r.wf(),
            r@ is None,
    {
        Store { rows: None }
    }

    /// The rows, none where the log is unavailable.
    pub fn into_rows(self) -> (r: Vec<Sighting>)
        ensures
            row_views(r@) == (match self@ {
                Some(log) => log,
                None => Seq::empty(),
            }),
    {
        match self.rows {
            Some(v) => v,
            None => {
                let r: Vec<Sighting> = Vec::new();
                assert(row_views(r@) =~= Seq::<Row>::empty());
                r
            },
        }
    }

    /// Passive log: records one contact at the current time. Nothing happens where the log is
    /// unavailable.
    pub fn record(&mut self, a: &UiAircraft)
        requires
            old(self).wf(),
        ensures
            final(self).wf(),
            exists|now: i64|
                now >= 0 && #[trigger] after_record(old(self)@, a@, now) == final(self)@,
    {
        let now: i64 = now_secs();
        self.record_at(a, now);
    }

    /// `record` with the time given.
    pub fn record_at(&mut self, a: &UiAircraft, now: i64)
        requires
            old(self).wf(),
        ensures
            final(self).wf(),
            final(self)@ == after_record(old(self)@, a@, now),
    {
        if let Some(v) = self.rows.take() {
            let mut rows: Vec<Sighting> = v;
            upsert(&mut rows, a, now);
            self.rows = Some(rows);
        }
    }

    /// Records a whole poll's worth of contacts at the current time.
    pub fn record_batch(&mut self, items: &Vec<UiAircraft>)
        requires
            old(self).wf(),
        ensures
            final(self).wf(),
            exists|now: i64|
                now >= 0 && #[trigger] after_batch(old(self)@, contact_views(items@), now) 
                    == final(self)@,
    {
        let now: i64 = now_secs();
        self.record_batch_at(items, now);
    }

    /// `record_batch` with the time given.
    pub fn record_batch_at(&mut self, items: &Vec<UiAircraft>, now: i64)
        requires
            old(self).wf(),
        ensures
            final(self).wf(),
            final(self)@ == after_batch(old(self)@, contact_views(items@), now),
    {
        if let Some(v) = self.rows.take() {
            let mut rows: Vec<Sighting> = v;
            let ghost log = row_views(rows@);
            let ghost cs = contact_views(items@);
            let n: usize = items.len();
            let mut i: usize = 0;
            while i < n
                invariant
                    n == items@.len(),
                    cs == contact_views(items@),
                    i <= n,
                    keyed(row_views(rows@)),
                    row_views(rows@) == recorded_all(log, cs.take(i as int), now),
                decreases n - i,
            {
                upsert(&mut rows, &items[i], now);
                assert(cs.take(i + 1).drop_last() == cs.take(i as int));
                i += 1;
            }
            assert(cs.take(n as int) == cs);
            self.rows = Some(rows);
        }
    }

    /// Deliberate catch at the current time. `Ok(true)` where this call promoted the row into
    /// the dex, `Ok(false)` where it was caught already or there is no such row.
    pub fn catch(&mut self, hex: &str) -> (r: Result<bool, String>)
        requires
            old(self).wf(),
        ensures
            final(self).wf(),
            exists|now: i64|
                now >= 0 && #[trigger] after_catch(old(self)@, hex@, now) == final(self)@,
            (match r {
                Ok(b) => old(self)@ is Some && b == catchable(old(self)@->0, hex@),
                Err(e) => old(self)@ is None && e@ == "sightings store unavailable"@,
            }),
    {
        let now: i64 = now_secs();
        self.catch_at(hex, now)
    }

    /// `catch` with the time given.
    pub fn catch_at(&mut self, hex: &str, now: i64) -> (r: Result<bool, String>)
        requires
            old(self).wf(),
        ensures
            final(self).wf(),
            final(self)@ == after_catch(old(self)@, hex@, now),
            (match r {
                Ok(b) => old(self)@ is Some && b == catchable(old(self)@->0, hex@),
                Err(e) => old(self)@ is None && e@ == "sightings store unavailable"@,
            }),
    {
        match self.rows.take() {
            None => Err("sightings store unavailable".to_owned()),
            Some(v) => {
                let mut rows: Vec<Sighting> = v;
                let ghost log = row_views(rows@);
                let mut promoted: bool = false;
                if let Some(i) = find(&rows, hex) {
                    if rows[i].caught_at.is_none() {
                        rows[i].caught_at = Some(now);
                        promoted = true;
                        assert(row_views(rows@) =~= caught(log, hex@, now));
                    }
                }
                proof {
                    assert(row_views(rows@) =~= caught(log, hex@, now));
                    lemma_caught_keyed(log, hex@, now);
                }
                self.rows = Some(rows);
                Ok(promoted)
            },
        }
    }

    /// Addresses already in the dex.
    pub fn caught_hexes(&self) -> (r: Vec<String>)
        ensures
            texts_of(r@) == (match self@ {
                Some(log) => dex_rows(log).map_values(|r: Row| r.hex),
                None => Seq::empty(),
            }),
    {
        let mut out: Vec<String> = Vec::new();
        assert(texts_of(out@) =~= Seq::<Seq<char>>::empty());
        if let Some(rows) = &self.rows {
            let ghost log = row_views(rows@);
            let n: usize = rows.len();
            let mut i: usize = 0;
            assert(texts_of(out@) =~= dex_rows(log.take(0)).map_values(|r: Row| r.hex));
            while i < n
                invariant
                    n == rows@.len(),
                    log == row_views(rows@),
                    i <= n,
                    texts_of(out@) == dex_rows(log.take(i as int)).map_values(|r: Row| r.hex),
                decreases n - i,
            {
                let ghost before = texts_of(out@);
                assert(log.take(i + 1).drop_last() == log.take(i as int));
                if rows[i].caught_at.is_some() {
                    out.push(rows[i].hex.clone());
                    assert(texts_of(out@) =~= before.push(rows@[i as int].hex@));
                }
                assert(texts_of(out@) =~= dex_rows(log.take(i + 1)).map_values(|r: Row| r.hex));
                i += 1;
            }
            assert(log.take(n as int) == log);
        }
        out
    }

    /// The dex: every caught airframe, newest catch first.
    pub fn dex(&self) -> (r: Vec<DexEntry>)
        requires
            self@ matches Some(log) ==> log.len() <= i64::MAX,
        ensures
            dex_views(r@) == (match self@ {
                Some(log) => dex_of(log),
                None => Seq::empty(),
            }),
    {
        let mut out: Vec<DexEntry> = Vec::new();
        assert(dex_views(out@) =~= Seq::<DexRow>::empty());
        if let Some(rows) = &self.rows {
            let ghost log = row_views(rows@);
            let tiers: Table<Rarity> = tiers_of(rows);
            let (at, keys): (Vec<usize>, Vec<i128>) = dex_positions(rows);
            let p: Vec<usize> = rank(&keys);
            let ghost picked = dex_rows(log);
            let ghost order = position_view(p@);
            assert(key_view(keys@) =~= picked.map_values(|r: Row| -(r.caught_at->0 as int)));
            let n: usize = p.len();
            let mut i: usize = 0;
            assert(dex_views(out@) =~= dex_of(log).take(0));
            while i < n
                invariant
                    n == p@.len(),
                    log == row_views(rows@),
                    picked == dex_rows(log),
                    tiers.wf(),
                    tiers@ == type_tiers(log),
                    at@.len() == picked.len(),
                    keys@.len() == picked.len(),
                    order == position_view(p@),
                    stable_order(key_view(keys@), order),
                    order == ranking(picked.map_values(|r: Row| -(r.caught_at->0 as int))),
                    forall|j: int|
                        0 <= j < at@.len() ==> #[trigger] at@[j] < rows@.len() && log[at@[j] as int]
                            == picked[j] && picked[j].caught_at is Some,
                    i <= n,
                    dex_views(out@) == dex_of(log).take(i as int),
                decreases n - i,
            {
                assert(0 <= order[i as int] < picked.len());
                let k: usize = at[p[i]];
                let ghost before = dex_views(out@);
                let row: &Sighting = &rows[k];
                let entry: DexEntry = dex_entry(row, &tiers);
                out.push(entry);
                assert(dex_views(out@) =~= before.push(entry@));
                assert(dex_of(log)[i as int] == dex_row(picked[order[i as int]], type_tiers(log)));
                assert(dex_views(out@) =~= dex_of(log).take(i + 1));
                i += 1;
            }
            assert(dex_of(log).take(n as int) =~= dex_of(log));
        }
        out
    }

    /// The tier of each logged type, so that rare contacts can be marked as they appear.
    pub fn rarity_map(&self) -> (r: Table<Rarity>)
        requires
            self@ matches Some(log) ==> log.len() <= i64::MAX,
        ensures
            r.wf(),
            r@ == (match self@ {
                Some(log) => type_tiers(log),
                None => Map::empty(),
            }),
    {
        match &self.rows {
            Some(rows) => tiers_of(rows),
            None => Table::new(),
        }
    }

    /// Collection figures and personal achievements.
    pub fn milestones(&self) -> (r: Milestones)
        requires
            self@ matches Some(log) ==> log.len() <= i64::MAX,
        ensures
            r@ == (match self@ {
                Some(log) => milestones_of(log),
                None => Summary::nothing(),
            }),
    {
        match &self.rows {
            Some(rows) => summarize(rows),
            None => Milestones::none(),
        }
    }
}

/// The store's rows after a sighting; nothing happens where the log is unavailable.
pub open spec fn after_record(store: Option<Seq<Row>>, c: Contact, now: i64) -> Option<Seq<Row>> {
    match store {
        Some(log) => Some(recorded(log, c, now)),
        None => None,
    }
}

/// The store's rows after a list of sightings; nothing happens where the log is unavailable.
pub open spec fn after_batch(
    store: Option<Seq<Row>>,
    cs: Seq<Contact>,
    now: i64,
) -> Option<Seq<Row>> {
    match store {
        Some(log) => Some(recorded_all(log, cs, now)),
        None => None,
    }
}

/// The store's rows after a catch; nothing happens where the log is unavailable.
pub open spec fn after_catch(
    store: Option<Seq<Row>>,
    hex: Seq<char>,
    now: i64,
) -> Option<Seq<Row>> {
    match store {
        Some(log) => Some(caught(log, hex, now)),
        None => None,
    }
}

/// The rows with an address that has not come before.
pub open spec fn distinct_rows(rows: Seq<Row>) -> Seq<Row>
    decreases rows.len(),
{
    if rows.len() == 0 {
        Seq::empty()
    } else {
        let rest = distinct_rows(rows.drop_last());
        if rows.last().hex.len() > 0 && !logged(rest, rows.last().hex) {
            rest.push(rows.last())
        } else {
            rest
        }
    }
}

proof fn lemma_distinct_rows(rows: Seq<Row>)
    requires
        keyed(rows),
    ensures
        distinct_rows(rows) == rows,
    decreases rows.len(),
{
    if rows.len() > 0 {
        let less = rows.drop_last();
        assert(keyed(less));
        lemma_distinct_rows(less);
        assert forall|i: int| !row_at(less, rows.last().hex, i) by {
            if 0 <= i < less.len() {
                assert(rows[i].hex != rows[rows.len() - 1].hex);
            }
        }
        assert(less.push(rows.last()) == rows);
    }
}

proof fn lemma_row_unique(log: Seq<Row>, hex: Seq<char>, i: int)
    requires
        keyed(log),
        row_at(log, hex, i),
    ensures
        logged(log, hex),
        row_index(log, hex) == i,
{
    let j = row_index(log, hex);
    assert(row_at(log, hex, j));
    if j < i {
        assert(log[j].hex != log[i].hex);
    } else if i < j {
        assert(log[i].hex != log[j].hex);
    }
}

proof fn lemma_caught_keyed(log: Seq<Row>, hex: Seq<char>, now: i64)
    requires
        keyed(log),
    ensures
        keyed(caught(log, hex, now)),
{
    let new = caught(log, hex, now);
    if catchable(log, hex) {
        assert(row_at(log, hex, row_index(log, hex)));
        assert forall|i: int| 0 <= i < new.len() implies #[trigger] new[i].hex == log[i].hex by {}
        assert forall|i: int, j: int| 0 <= i < j < new.len() implies #[trigger] new[i].hex
            != #[trigger] new[j].hex by {
            assert(log[i].hex != log[j].hex);
        }
        assert forall|i: int| 0 <= i < new.len() implies #[trigger] new[i].hex.len() > 0 by {
            assert(log[i].hex.len() > 0);
        }
    }
}

/// A sighting keeps the log keyed: one row per airframe, none without an address.
pub proof fn recording_keeps_rows_distinct(log: Seq<Row>, c: Contact, now: i64)
    requires
        keyed(log),
    ensures
        keyed(recorded(log, c, now)),
{
    let new = recorded(log, c, now);
    if c.hex.len() > 0 {
        if logged(log, c.hex) {
            assert(row_at(log, c.hex, row_index(log, c.hex)));
            assert forall|i: int, j: int| 0 <= i < j < new.len() implies #[trigger] new[i].hex
                != #[trigger] new[j].hex by {
                assert(log[i].hex != log[j].hex);
            }
            assert forall|i: int| 0 <= i < new.len() implies #[trigger] new[i].hex.len() > 0 by {
                assert(log[i].hex.len() > 0);
            }
        } else {
            assert forall|i: int, j: int| 0 <= i < j < new.len() implies #[trigger] new[i].hex
                != #[trigger] new[j].hex by {
                if j == log.len() {
                    assert(!row_at(log, c.hex, i));
                } else {
                    assert(log[i].hex != log[j].hex);
                }
            }
            assert forall|i: int| 0 <= i < new.len() implies #[trigger] new[i].hex.len() > 0 by {
                if i < log.len() {
                    assert(log[i].hex.len() > 0);
                }
            }
        }
    }
}

/// The position of the row for `hex`.
fn find(rows: &Vec<Sighting>, hex: &str) -> (r: Option<usize>)
    requires
        keyed(row_views(rows@)),
    ensures
        (match r {
            Some(i) => row_at(row_views(rows@), hex@, i as int) && logged(row_views(rows@), hex@)
                && row_index(row_views(rows@), hex@) == i,
            None => !logged(row_views(rows@), hex@),
        }),
{
    let ghost log = row_views(rows@);
    let n: usize = rows.len();
    let mut i: usize = 0;
    while i < n
        invariant
            n == rows@.len(),
            log == row_views(rows@),
            keyed(log),
            i <= n,
            forall|j: int| 0 <= j < i ==> !row_at(log, hex@, j),
        decreases n - i,
    {
        if same_text(rows[i].hex.as_str(), hex) {
            proof {
                lemma_row_unique(log, hex@, i as int);
            }
            return Some(i);
        }
        i += 1;
    }
    None
}

/// Brings the log up to date with one sighting.
fn upsert(rows: &mut Vec<Sighting>, a: &UiAircraft, now: i64)
    requires
        keyed(row_views(old(rows)@)),
    ensures
        keyed(row_views(final(rows)@)),
        row_views(final(rows)@) == recorded(row_views(old(rows)@), a@, now),
{
    let ghost log = row_views(rows@);
    proof {
        recording_keeps_rows_distinct(log, a@, now);
    }
    if a.hex.as_str().is_empty() {
        return;
    }
    match find(rows, a.hex.as_str()) {
        Some(i) => {
            rows[i].see_again(a, now);
            assert(row_views(rows@) =~= recorded(log, a@, now));
        },
        None => {
            rows.push(Sighting::first(a, now));
            assert(row_views(rows@) =~= recorded(log, a@, now));
        },
    }
}

/// The known type codes, one for each row that has one.
fn list_types(rows: &Vec<Sighting>) -> (r: Vec<String>)
    ensures
        texts_of(r@) == known_types(row_views(rows@)),
        r@.len() <= rows@.len(),
{
    let ghost log = row_views(rows@);
    let mut r: Vec<String> = Vec::new();
    let n: usize = rows.len();
    let mut i: usize = 0;
    assert(texts_of(r@) =~= known_types(log.take(0)));
    while i < n
        invariant
            n == rows@.len(),
            log == row_views(rows@),
            i <= n,
            r@.len() <= i,
            texts_of(r@) == known_types(log.take(i as int)),
        decreases n - i,
    {
        let ghost before = texts_of(r@);
        assert(log.take(i + 1).drop_last() == log.take(i as int));
        if let Some(t) = &rows[i].type_code {
            if !t.as_str().is_empty() {
                r.push(t.clone());
                assert(texts_of(r@) =~= before.push(t@));
            }
        }
        i += 1;
    }
    assert(log.take(n as int) == log);
    r
}

/// How often `t` occurs.
fn count_text(v: &Vec<String>, t: &str) -> (r: i64)
    requires
        v@.len() <= i64::MAX,
    ensures
        r == occurrences(texts_of(v@), t@),
        0 <= r <= v@.len(),
{
    let ghost all = texts_of(v@);
    let n: usize = v.len();
    let mut r: i64 = 0;
    let mut i: usize = 0;
    while i < n
        invariant
            n == v@.len(),
            n <= i64::MAX,
            all == texts_of(v@),
            i <= n,
            0 <= r <= i,
            r == occurrences(all.take(i as int), t@),
        decreases n - i,
    {
        assert(all.take(i + 1).drop_last() == all.take(i as int));
        if same_text(v[i].as_str(), t) {
            r = r + 1;
        }
        i += 1;
    }
    assert(all.take(n as int) == all);
    r
}

/// How many of the texts that `kinds` lists occur in `v`, counted with repetition.
spec fn occurrence_sum(kinds: Seq<Seq<char>>, v: Seq<Seq<char>>) -> int {
    count_sum(kinds.map_values(|t: Seq<char>| (t, occurrences(v, t))))
}

proof fn lemma_occurrence_sum(kinds: Seq<Seq<char>>, v: Seq<Seq<char>>)
    requires
        kinds.no_duplicates(),
    ensures
        0 <= occurrence_sum(kinds, v) <= v.len(),
    decreases v.len(),
{
    if v.len() == 0 {
        lemma_sum_step(kinds, v, v);
    } else {
        lemma_occurrence_sum(kinds, v.drop_last());
        lemma_sum_step(kinds, v, v.drop_last());
    }
}

/// One more text adds at most one to the sum over kinds that are all different, and exactly one
/// where its kind is listed.
proof fn lemma_sum_step(kinds: Seq<Seq<char>>, v: Seq<Seq<char>>, less: Seq<Seq<char>>)
    requires
        kinds.no_duplicates(),
        v.len() == 0 || less == v.drop_last(),
    ensures
        v.len() == 0 ==> occurrence_sum(kinds, v) == 0,
        v.len() > 0 ==> occurrence_sum(kinds, v) == occurrence_sum(kinds, less) + (if kinds.contains(
            v.last(),
        ) {
            1int
        } else {
            0int
        }),
    decreases kinds.len(),
{
    let f = kinds.map_values(|t: Seq<char>| (t, occurrences(v, t)));
    let g = kinds.map_values(|t: Seq<char>| (t, occurrences(less, t)));
    if kinds.len() > 0 {
        let fewer = kinds.drop_last();
        lemma_sum_step(fewer, v, less);
        assert(f.drop_last() =~= fewer.map_values(|t: Seq<char>| (t, occurrences(v, t))));
        assert(g.drop_last() =~= fewer.map_values(|t: Seq<char>| (t, occurrences(less, t))));
        if v.len() > 0 {
            let t = v.last();
            if kinds.last() == t {
                assert(kinds[kinds.len() - 1] == t);
                if fewer.contains(t) {
                    let i = choose|i: int| 0 <= i < fewer.len() && fewer[i] == t;
                    assert(kinds[i] == t);
                }
            } else {
                if kinds.contains(t) {
                    let i = choose|i: int| 0 <= i < kinds.len() && kinds[i] == t;
                    assert(fewer[i] == t);
                }
                if fewer.contains(t) {
                    let i = choose|i: int| 0 <= i < fewer.len() && fewer[i] == t;
                    assert(kinds[i] == t);
                }
            }
        }
    }
}

/// The tier of each logged type.
fn tiers_of(rows: &Vec<Sighting>) -> (r: Table<Rarity>)
    requires
        rows@.len() <= i64::MAX,
    ensures
        r.wf(),
        r@ == type_tiers(row_views(rows@)),
{
    let ghost log = row_views(rows@);
    let types: Vec<String> = list_types(rows);
    let kinds: Vec<String> = dedup(&types);
    let ghost ts = texts_of(types@);
    let ghost ks = texts_of(kinds@);
    let n: usize = kinds.len();
    let mut counts: Vec<(String, i64)> = Vec::new();
    let mut i: usize = 0;
    while i < n
        invariant
            n == kinds@.len(),
            types@.len() <= i64::MAX,
            ts == texts_of(types@),
            ks == texts_of(kinds@),
            i <= n,
            counts@.len() == i,
            forall|j: int|
                0 <= j < i ==> #[trigger] count_view(counts@)[j] == (ks[j], occurrences(ts, ks[j]))
                    && count_view(counts@)[j].1 >= 0,
        decreases n - i,
    {
        let ghost before = count_view(counts@);
        let k: i64 = count_text(&types, kinds[i].as_str());
        counts.push((kinds[i].clone(), k));
        assert(count_view(counts@) =~= before.push((ks[i as int], k as int)));
        i += 1;
    }
    proof {
        assert(count_view(counts@) =~= type_counts(log));
        assert(all_counted(count_view(counts@)));
        distinct_keeps_each_once(ts);
        lemma_occurrence_sum(ks, ts);
    }
    rarity_tiers(&counts)
}

/// The positions of the caught rows, and the keys that put the newest catch first.
fn dex_positions(rows: &Vec<Sighting>) -> (r: (Vec<usize>, Vec<i128>))
    ensures
        ({
            let log = row_views(rows@);
            let picked = dex_rows(log);
            &&& r.0@.len() == picked.len()
            &&& r.1@.len() == picked.len()
            &&& forall|j: int|
                0 <= j < picked.len() ==> #[trigger] r.0@[j] < rows@.len() && log[r.0@[j] as int]
                    == picked[j] && picked[j].caught_at is Some
            &&& forall|j: int|
                0 <= j < picked.len() ==> #[trigger] r.1@[j] == -(picked[j].caught_at->0 as int)
        }),
{
    let ghost log = row_views(rows@);
    let n: usize = rows.len();
    let mut at: Vec<usize> = Vec::new();
    let mut keys: Vec<i128> = Vec::new();
    let mut i: usize = 0;
    while i < n
        invariant
            n == rows@.len(),
            log == row_views(rows@),
            i <= n,
            at@.len() == dex_rows(log.take(i as int)).len(),
            keys@.len() == at@.len(),
            forall|j: int|
                0 <= j < at@.len() ==> #[trigger] at@[j] < i && log[at@[j] as int] == dex_rows(
                    log.take(i as int),
                )[j] && dex_rows(log.take(i as int))[j].caught_at is Some,
            forall|j: int|
                0 <= j < at@.len() ==> #[trigger] keys@[j] == -(dex_rows(
                    log.take(i as int),
                )[j].caught_at->0 as int),
        decreases n - i,
    {
        assert(log.take(i + 1).drop_last() == log.take(i as int));
        if let Some(t) = rows[i].caught_at {
            at.push(i);
            keys.push(-(t as i128));
        }
        i += 1;
    }
    assert(log.take(n as int) == log);
    (at, keys)
}

/// The dex entry of a caught row.
fn dex_entry(row: &Sighting, tiers: &Table<Rarity>) -> (r: DexEntry)
    requires
        tiers.wf(),
        row.caught_at is Some,
    ensures
        r@ == dex_row(row@, tiers@),
{
    let rarity: Option<String> = if row.notable {
        Some("legendary".to_owned())
    } else {
        match &row.type_code {
            Some(t) => match tiers.get(t.as_str()) {
                Some(x) => Some(x.label().to_owned()),
                None => None,
            },
            None => None,
        }
    };
    let caught_at: i64 = match row.caught_at {
        Some(t) => t,
        None => 0,
    };
    DexEntry {
        hex: row.hex.clone(),
        registration: copy_text(&row.registration),
        type_code: copy_text(&row.type_code),
        type_desc: copy_text(&row.type_desc),
        operator: copy_text(&row.operator),
        callsign: copy_text(&row.callsign),
        squawk: copy_text(&row.squawk),
        notable: row.notable,
        notable_reason: copy_text(&row.notable_reason),
        caught_at,
        first_seen_at: row.first_seen_at,
        last_seen_at: row.last_seen_at,
        seen_count: row.seen_count,
        rarity,
    }
}

/// What the log knows is never lost by a sighting: rows stay where they are, the time of the
/// first sighting and of the catch are never overwritten, what is known of an airframe stays
/// known, and the notable flag stays on once it is on.
pub proof fn recording_preserves_rows(log: Seq<Row>, c: Contact, now: i64, i: int)
    requires
        keyed(log),
        0 <= i < log.len(),
    ensures
        ({
            let new = recorded(log, c, now);
            &&& log.len() <= new.len() <= log.len() + 1
            &&& new[i].hex == log[i].hex
            &&& new[i].first_seen_at == log[i].first_seen_at
            &&& new[i].caught_at == log[i].caught_at
            &&& log[i].registration is Some ==> new[i].registration is Some
            &&& log[i].type_code is Some ==> new[i].type_code is Some
            &&& log[i].type_desc is Some ==> new[i].type_desc is Some
            &&& log[i].operator is Some ==> new[i].operator is Some
            &&& log[i].callsign is Some ==> new[i].callsign is Some
            &&& log[i].notable_reason is Some ==> new[i].notable_reason is Some
            &&& log[i].lat is Some ==> new[i].lat is Some
            &&& log[i].lon is Some ==> new[i].lon is Some
            &&& log[i].alt is Some ==> new[i].alt is Some
            &&& log[i].notable ==> new[i].notable
            &&& log[i].seen_count <= new[i].seen_count
        }),
{
    if c.hex.len() > 0 && logged(log, c.hex) {
        assert(row_at(log, c.hex, row_index(log, c.hex)));
    }
}

/// What a later poll leaves out does not overwrite what is known.
pub proof fn omitted_fields_survive(log: Seq<Row>, c: Contact, now: i64, i: int)
    requires
        keyed(log),
        row_at(log, c.hex, i),
        c.hex.len() > 0,
    ensures
        ({
            let new = recorded(log, c, now);
            &&& c.reg is None ==> new[i].registration == log[i].registration
            &&& c.t is None ==> new[i].type_code == log[i].type_code
            &&& c.desc is None ==> new[i].type_desc == log[i].type_desc
            &&& c.operator is None ==> new[i].operator == log[i].operator
            &&& coordinate(c.lat) is None ==> new[i].lat == log[i].lat
            &&& coordinate(c.lon) is None ==> new[i].lon == log[i].lon
        }),
{
    lemma_row_unique(log, c.hex, i);
}

/// A sighting touches no row but that of its contact, and that row depends on nothing else in
/// the log.
pub proof fn recording_touches_one_row(log: Seq<Row>, c: Contact, now: i64)
    requires
        keyed(log),
        c.hex.len() > 0,
    ensures
        ({
            let new = recorded(log, c, now);
            &&& logged(new, c.hex)
            &&& new[row_index(new, c.hex)] == (if logged(log, c.hex) {
                next_row(log[row_index(log, c.hex)], c, now)
            } else {
                first_row(c, now)
            })
            &&& forall|i: int|
                0 <= i < log.len() && log[i].hex != c.hex ==> #[trigger] new[i] == log[i]
        }),
{
    let new = recorded(log, c, now);
    recording_keeps_rows_distinct(log, c, now);
    if logged(log, c.hex) {
        let i = row_index(log, c.hex);
        assert(row_at(log, c.hex, i));
        assert(row_at(new, c.hex, i));
        lemma_row_unique(new, c.hex, i);
    } else {
        assert(row_at(new, c.hex, log.len() as int));
        lemma_row_unique(new, c.hex, log.len() as int);
    }
}

/// A batch of sightings keeps every row, its first sighting and its catch, and keeps the log
/// keyed.
pub proof fn batches_preserve_rows(log: Seq<Row>, cs: Seq<Contact>, now: i64, i: int)
    requires
        keyed(log),
        0 <= i < log.len(),
    ensures
        ({
            let new = recorded_all(log, cs, now);
            &&& keyed(new)
            &&& log.len() <= new.len()
            &&& new[i].hex == log[i].hex
            &&& new[i].first_seen_at == log[i].first_seen_at
            &&& new[i].caught_at == log[i].caught_at
            &&& log[i].notable ==> new[i].notable
        }),
    decreases cs.len(),
{
    if cs.len() > 0 {
        let mid = recorded_all(log, cs.drop_last(), now);
        batches_preserve_rows(log, cs.drop_last(), now, i);
        recording_keeps_rows_distinct(mid, cs.last(), now);
        recording_preserves_rows(mid, cs.last(), now, i);
    }
}

/// A catch stamps its own row and changes nothing else; the log stays keyed.
pub proof fn catching_touches_one_stamp(log: Seq<Row>, hex: Seq<char>, now: i64)
    requires
        keyed(log),
    ensures
        keyed(caught(log, hex, now)),
        caught(log, hex, now).len() == log.len(),
        forall|i: int|
            0 <= i < log.len() ==> #[trigger] caught(log, hex, now)[i] == (if log[i].hex == hex
                && log[i].caught_at is None {
                (Row { caught_at: Some(now), ..log[i] })
            } else {
                log[i]
            }),
{
    lemma_caught_keyed(log, hex, now);
    assert forall|i: int| 0 <= i < log.len() implies #[trigger] caught(log, hex, now)[i] == (
    if log[i].hex == hex && log[i].caught_at is None {
        (Row { caught_at: Some(now), ..log[i] })
    } else {
        log[i]
    }) by {
        if log[i].hex == hex {
            assert(row_at(log, hex, i));
            lemma_row_unique(log, hex, i);
        } else if logged(log, hex) {
            assert(row_at(log, hex, row_index(log, hex)));
        }
    }
}

/// Only the first catch of an airframe counts: a second one promotes nothing and changes nothing.
pub proof fn second_catch_changes_nothing(log: Seq<Row>, hex: Seq<char>, t1: i64, t2: i64)
    requires
        keyed(log),
    ensures
        !catchable(caught(log, hex, t1), hex),
        caught(caught(log, hex, t1), hex, t2) == caught(log, hex, t1),
{
    let once = caught(log, hex, t1);
    catching_touches_one_stamp(log, hex, t1);
    if logged(once, hex) {
        let i = row_index(once, hex);
        assert(row_at(once, hex, i));
        assert(once[i].caught_at is Some);
    }
}

/// A live contact can always be caught: once it is recorded, a catch puts it into the dex, and
/// the catch is what promoted it unless it was there before.
pub proof fn recorded_contact_can_be_caught(log: Seq<Row>, c: Contact, seen: i64, now: i64)
    requires
        keyed(log),
        c.hex.len() > 0,
    ensures
        ({
            let logged_now = recorded(log, c, seen);
            let after = caught(logged_now, c.hex, now);
            &&& in_dex(after, c.hex)
            &&& catchable(logged_now, c.hex) <==> !in_dex(log, c.hex)
        }),
{
    let mid = recorded(log, c, seen);
    recording_keeps_rows_distinct(log, c, seen);
    recording_touches_one_row(log, c, seen);
    let i = row_index(mid, c.hex);
    assert(row_at(mid, c.hex, i));
    catching_touches_one_stamp(mid, c.hex, now);
    let after = caught(mid, c.hex, now);
    assert(row_at(after, c.hex, i) && after[i].caught_at is Some);
    if in_dex(log, c.hex) {
        let j = choose|j: int| #[trigger] row_at(log, c.hex, j) && log[j].caught_at is Some;
        lemma_row_unique(log, c.hex, j);
    }
    if logged(log, c.hex) {
        assert(row_at(log, c.hex, row_index(log, c.hex)));
    }
}

/// `hex` is in the dex: it is logged and caught.
pub open spec fn in_dex(log: Seq<Row>, hex: Seq<char>) -> bool {
    exists|i: int| #[trigger] row_at(log, hex, i) && log[i].caught_at is Some
}

proof fn lemma_dex_rows_members(log: Seq<Row>)
    requires
        keyed(log),
    ensures
        keyed(dex_rows(log)),
        forall|k: int|
            0 <= k < dex_rows(log).len() ==> in_dex(log, #[trigger] dex_rows(log)[k].hex)
                && log.contains(dex_rows(log)[k]),
        forall|hex: Seq<char>| in_dex(log, hex) ==> #[trigger] logged(dex_rows(log), hex),
    decreases log.len(),
{
    if log.len() > 0 {
        let less = log.drop_last();
        let last = log.last();
        assert(keyed(less)) by {
            assert forall|i: int, j: int| 0 <= i < j < less.len() implies #[trigger] less[i].hex
                != #[trigger] less[j].hex by {
                assert(log[i].hex != log[j].hex);
            }
            assert forall|i: int| 0 <= i < less.len() implies #[trigger] less[i].hex.len() > 0 by {
                assert(log[i].hex.len() > 0);
            }
        }
        lemma_dex_rows_members(less);
        let d = dex_rows(log);
        let e = dex_rows(less);
        assert forall|k: int| 0 <= k < d.len() implies in_dex(log, #[trigger] d[k].hex)
            && log.contains(d[k]) by {
            if k < e.len() {
                assert(d[k] == e[k]);
                let i = choose|i: int| #[trigger] row_at(less, e[k].hex, i) && less[i].caught_at is Some;
                assert(row_at(log, d[k].hex, i) && log[i].caught_at is Some);
                let m = choose|m: int| 0 <= m < less.len() && less[m] == e[k];
                assert(log[m] == d[k]);
            } else {
                assert(row_at(log, last.hex, log.len() - 1) && log[log.len() - 1].caught_at is Some);
            }
        }
        assert forall|a: int, b: int| 0 <= a < b < d.len() implies #[trigger] d[a].hex
            != #[trigger] d[b].hex by {
            if b < e.len() {
                assert(e[a].hex != e[b].hex);
            } else {
                assert(in_dex(less, e[a].hex));
                let i = choose|i: int| #[trigger] row_at(less, e[a].hex, i) && less[i].caught_at is Some;
                assert(log[i].hex != log[log.len() - 1].hex);
            }
        }
        assert forall|a: int| 0 <= a < d.len() implies #[trigger] d[a].hex.len() > 0 by {
            if a < e.len() {
                assert(e[a].hex.len() > 0);
            } else {
                assert(log[log.len() - 1].hex.len() > 0);
            }
        }
        assert forall|hex: Seq<char>| in_dex(log, hex) implies #[trigger] logged(d, hex) by {
            let i = choose|i: int| #[trigger] row_at(log, hex, i) && log[i].caught_at is Some;
            if i < less.len() {
                assert(row_at(less, hex, i) && less[i].caught_at is Some);
                assert(in_dex(less, hex));
                assert(logged(e, hex));
                let k = choose|k: int| row_at(e, hex, k);
                assert(row_at(d, hex, k));
            } else {
                assert(row_at(d, hex, e.len() as int));
            }
        }
    }
}

/// The dex lists every caught airframe exactly once, nothing else, and never an older catch
/// before a newer one; a notable catch is always legendary.
pub proof fn dex_is_faithful(log: Seq<Row>)
    requires
        keyed(log),
    ensures
        forall|k: int| 0 <= k < dex_of(log).len() ==> in_dex(log, #[trigger] dex_of(log)[k].hex),
        forall|hex: Seq<char>|
            in_dex(log, hex) ==> exists|k: int|
                0 <= k < dex_of(log).len() && #[trigger] dex_of(log)[k].hex == hex,
        forall|a: int, b: int|
            0 <= a < b < dex_of(log).len() ==> #[trigger] dex_of(log)[a].hex
                != #[trigger] dex_of(log)[b].hex,
        forall|a: int, b: int|
            0 <= a < b < dex_of(log).len() ==> #[trigger] dex_of(log)[a].caught_at
                >= #[trigger] dex_of(log)[b].caught_at,
        forall|k: int|
            0 <= k < dex_of(log).len() && (#[trigger] dex_of(log)[k]).notable ==> dex_of(
                log,
            )[k].rarity == Some("legendary"@),
{
    let rows = dex_rows(log);
    let keys = rows.map_values(|r: Row| -(r.caught_at->0 as int));
    let p = ranking(keys);
    stable_order_exists(keys);
    lemma_dex_rows_members(log);
    let d = dex_of(log);
    assert(d.len() == p.len());
    assert forall|k: int| 0 <= k < d.len() implies #[trigger] d[k] == dex_row(
        rows[p[k]],
        type_tiers(log),
    ) by {}
    assert forall|hex: Seq<char>| in_dex(log, hex) implies exists|k: int|
        0 <= k < d.len() && #[trigger] d[k].hex == hex by {
        assert(logged(rows, hex));
        let j = choose|j: int| row_at(rows, hex, j);
        assert(p.contains(j));
        let k = choose|k: int| 0 <= k < p.len() && p[k] == j;
        assert(d[k].hex == hex);
    }
    assert forall|a: int, b: int| 0 <= a < b < d.len() implies #[trigger] d[a].hex
        != #[trigger] d[b].hex && d[a].caught_at >= d[b].caught_at by {
        assert(before(keys, p[a], p[b]));
        if p[a] < p[b] {
            assert(rows[p[a]].hex != rows[p[b]].hex);
        } else {
            assert(rows[p[b]].hex != rows[p[a]].hex);
        }
    }
}

proof fn lemma_more_rows_more_figures(log: Seq<Row>, new: Seq<Row>)
    requires
        log.len() <= new.len(),
        forall|i: int|
            0 <= i < log.len() ==> ((#[trigger] log[i]).caught_at is Some
                ==> new[i].caught_at is Some) && (log[i].notable ==> new[i].notable),
    ensures
        dex_rows(log).len() <= dex_rows(new).len(),
        notable_count(dex_rows(log)) <= notable_count(dex_rows(new)),
    decreases new.len(),
{
    if new.len() > 0 {
        let less = new.drop_last();
        let d = dex_rows(new);
        if d.len() > dex_rows(less).len() {
            assert(d.drop_last() =~= dex_rows(less));
        }
        if log.len() < new.len() {
            assert forall|i: int| 0 <= i < log.len() implies ((#[trigger] log[i]).caught_at is Some
                ==> less[i].caught_at is Some) && (log[i].notable ==> less[i].notable) by {
                assert(less[i] == new[i]);
            }
            lemma_more_rows_more_figures(log, less);
        } else {
            let fewer = log.drop_last();
            assert forall|i: int| 0 <= i < fewer.len() implies ((
            #[trigger] fewer[i]).caught_at is Some ==> less[i].caught_at is Some) && (
            fewer[i].notable ==> less[i].notable) by {
                assert(fewer[i] == log[i] && less[i] == new[i]);
            }
            lemma_more_rows_more_figures(fewer, less);
            let last = log[log.len() - 1];
            let e = dex_rows(log);
            if e.len() > dex_rows(fewer).len() {
                assert(e.drop_last() =~= dex_rows(fewer));
            }
            assert(last.caught_at is Some ==> new[log.len() - 1].caught_at is Some);
        }
    }
}

/// The collection only grows: neither a sighting nor a catch lowers the number of airframes
/// seen, caught, or caught as notable.
pub proof fn collection_never_shrinks(log: Seq<Row>, c: Contact, hex: Seq<char>, now: i64)
    requires
        keyed(log),
    ensures
        ({
            let (a, b) = (milestones_of(log), milestones_of(recorded(log, c, now)));
            a.total_seen <= b.total_seen && a.total_caught <= b.total_caught && a.shinies <= b.shinies
        }),
        ({
            let (a, b) = (milestones_of(log), milestones_of(caught(log, hex, now)));
            a.total_seen <= b.total_seen && a.total_caught <= b.total_caught && a.shinies <= b.shinies
        }),
{
    assert forall|i: int| 0 <= i < log.len() implies ((#[trigger] log[i]).caught_at is Some
        ==> recorded(log, c, now)[i].caught_at is Some) && (log[i].notable ==> recorded(
        log,
        c,
        now,
    )[i].notable) by {
        recording_preserves_rows(log, c, now, i);
    }
    assert(log.len() <= recorded(log, c, now).len()) by {
        if log.len() > 0 {
            recording_preserves_rows(log, c, now, 0);
        }
    }
    lemma_more_rows_more_figures(log, recorded(log, c, now));
    catching_touches_one_stamp(log, hex, now);
    assert forall|i: int| 0 <= i < log.len() implies ((#[trigger] log[i]).caught_at is Some
        ==> caught(log, hex, now)[i].caught_at is Some) && (log[i].notable ==> caught(
        log,
        hex,
        now,
    )[i].notable) by {
        assert(caught(log, hex, now)[i].notable == log[i].notable);
    }
    lemma_more_rows_more_figures(log, caught(log, hex, now));
}

/// An emergency is a top-tier catch: a contact that was logged as one stands in the dex as
/// legendary once it is caught.
pub proof fn emergencies_are_legendary(log: Seq<Row>, c: Contact, seen: i64, now: i64)
    requires
        keyed(log),
        c.hex.len() > 0,
        c.is_emergency,
    ensures
        ({
            let dex = dex_of(caught(recorded(log, c, seen), c.hex, now));
            exists|k: int|
                0 <= k < dex.len() && (#[trigger] dex[k]).hex == c.hex && dex[k].rarity == Some(
                    "legendary"@,
                )
        }),
{
    let mid = recorded(log, c, seen);
    let after = caught(mid, c.hex, now);
    recording_keeps_rows_distinct(log, c, seen);
    recording_touches_one_row(log, c, seen);
    catching_touches_one_stamp(mid, c.hex, now);
    recorded_contact_can_be_caught(log, c, seen, now);
    dex_is_faithful(after);
    lemma_dex_rows_members(after);
    let dex = dex_of(after);
    let k = choose|k: int| 0 <= k < dex.len() && #[trigger] dex[k].hex == c.hex;
    let rows = dex_rows(after);
    let keys = rows.map_values(|r: Row| -(r.caught_at->0 as int));
    let p = ranking(keys);
    stable_order_exists(keys);
    assert(dex[k] == dex_row(rows[p[k]], type_tiers(after)));
    let row = rows[p[k]];
    assert(after.contains(row));
    let i = choose|i: int| 0 <= i < after.len() && after[i] == row;
    assert(row_at(mid, c.hex, i));
    lemma_row_unique(mid, c.hex, i);
    assert(mid[i].notable);
    assert(dex[k].notable);
}

/// What a sighting of a logged airframe reports becomes what the log knows of it, field by field:
/// callsign, registration, type code and description, operator, latitude, longitude and altitude.
/// What it does not report stays as it was. The squawk is always that of the sighting.
pub proof fn reports_replace_what_was_known(log: Seq<Row>, c: Contact, now: i64, i: int)
    requires
        keyed(log),
        0 <= i < log.len(),
        log[i].hex == c.hex,
    ensures
        ({
            let new = recorded(log, c, now)[i];
            let old_row = log[i];
            &&& c.flight is Some && c.flight->0.len() > 0 ==> new.callsign == c.flight
            &&& c.flight is None || c.flight->0.len() == 0 ==> new.callsign == old_row.callsign
            &&& c.reg is Some ==> new.registration == c.reg
            &&& c.reg is None ==> new.registration == old_row.registration
            &&& c.t is Some ==> new.type_code == c.t
            &&& c.t is None ==> new.type_code == old_row.type_code
            &&& c.desc is Some ==> new.type_desc == c.desc
            &&& c.desc is None ==> new.type_desc == old_row.type_desc
            &&& c.operator is Some ==> new.operator == c.operator
            &&& c.operator is None ==> new.operator == old_row.operator
            &&& c.lat is Some && !c.lat->0.is_nan() ==> new.lat == c.lat
            &&& c.lat is None || c.lat->0.is_nan() ==> new.lat == old_row.lat
            &&& c.lon is Some && !c.lon->0.is_nan() ==> new.lon == c.lon
            &&& c.lon is None || c.lon->0.is_nan() ==> new.lon == old_row.lon
            &&& forall|x: Double|
                c.alt_baro == Some(AltitudeView::Feet(x)) ==> new.alt == Some(
                    #[trigger] x.whole() as i64,
                )
            &&& c.alt_baro == Some(AltitudeView::Ground) ==> new.alt == Some(0i64)
            &&& c.alt_baro is None || c.alt_baro->0 is Other ==> new.alt == old_row.alt
            &&& new.squawk == c.squawk
        }),
{
    assert(log[i].hex.len() > 0);
    assert(row_at(log, c.hex, i));
    lemma_row_unique(log, c.hex, i);
}

/// A sighting of a logged airframe moves its last sighting to the present and counts once. Its
/// first sighting and its catch stay, and no other row changes. It is notable from the first
/// sighting on at which it was an emergency or interesting, with the reason of the latest such
/// sighting.
pub proof fn sightings_are_counted(log: Seq<Row>, c: Contact, now: i64, i: int)
    requires
        keyed(log),
        0 <= i < log.len(),
        log[i].hex == c.hex,
    ensures
        ({
            let all = recorded(log, c, now);
            let new = all[i];
            &&& all.len() == log.len()
            &&& forall|j: int| 0 <= j < log.len() && j != i ==> all[j] == log[j]
            &&& new.hex == log[i].hex
            &&& new.first_seen_at == log[i].first_seen_at
            &&& new.caught_at == log[i].caught_at
            &&& new.last_seen_at == now
            &&& log[i].seen_count < i64::MAX ==> new.seen_count == log[i].seen_count + 1
            &&& log[i].seen_count == i64::MAX ==> new.seen_count == i64::MAX
            &&& new.notable <==> log[i].notable || c.is_emergency || c.interesting
            &&& c.is_emergency || c.interesting ==> new.notable_reason is Some
                && new.notable_reason == salient_reason(c)
            &&& !c.is_emergency && !c.interesting ==> new.notable_reason == log[i].notable_reason
        }),
{
    assert(log[i].hex.len() > 0);
    assert(row_at(log, c.hex, i));
    lemma_row_unique(log, c.hex, i);
    notable_is_emergency_or_interest(c);
}

/// An airframe that is not logged gets a row of its own, behind those that are there, which holds
/// what the sighting reports and nothing else; a contact without an address gets none.
pub proof fn first_sightings_add_a_row(log: Seq<Row>, c: Contact, now: i64)
    requires
        keyed(log),
        forall|i: int| 0 <= i < log.len() ==> (#[trigger] log[i]).hex != c.hex,
    ensures
        c.hex.len() == 0 ==> recorded(log, c, now) == log,
        c.hex.len() > 0 ==> {
            let all = recorded(log, c, now);
            let new = all.last();
            &&& all.len() == log.len() + 1
            &&& forall|j: int| 0 <= j < log.len() ==> all[j] == log[j]
            &&& new.hex == c.hex
            &&& new.first_seen_at == now
            &&& new.last_seen_at == now
            &&& new.caught_at is None
            &&& new.seen_count == 1
            &&& new.registration == c.reg
            &&& new.type_code == c.t
            &&& new.type_desc == c.desc
            &&& new.operator == c.operator
            &&& new.squawk == c.squawk
            &&& c.flight is Some && c.flight->0.len() > 0 ==> new.callsign == c.flight
            &&& c.flight is None || c.flight->0.len() == 0 ==> new.callsign is None
            &&& c.lat is Some && !c.lat->0.is_nan() ==> new.lat == c.lat
            &&& c.lat is None || c.lat->0.is_nan() ==> new.lat is None
            &&& c.lon is Some && !c.lon->0.is_nan() ==> new.lon == c.lon
            &&& c.lon is None || c.lon->0.is_nan() ==> new.lon is None
            &&& forall|x: Double|
                c.alt_baro == Some(AltitudeView::Feet(x)) ==> new.alt == Some(
                    #[trigger] x.whole() as i64,
                )
            &&& c.alt_baro == Some(AltitudeView::Ground) ==> new.alt == Some(0i64)
            &&& c.alt_baro is None || c.alt_baro->0 is Other ==> new.alt is None
            &&& new.notable <==> c.is_emergency || c.interesting
            &&& c.is_emergency || c.interesting ==> new.notable_reason == salient_reason(c)
            &&& !c.is_emergency && !c.interesting ==> new.notable_reason is None
        },
{
    assert forall|i: int| !row_at(log, c.hex, i) by {
        if 0 <= i < log.len() {
            assert(log[i].hex != c.hex);
        }
    }
    notable_is_emergency_or_interest(c);
}

/// A batch logs every contact that has an address, and of several with one address the last one
/// counts: what it reports is what the log knows afterwards.
pub proof fn batches_log_every_contact(log: Seq<Row>, cs: Seq<Contact>, now: i64, i: int)
    requires
        keyed(log),
        0 <= i < cs.len(),
        cs[i].hex.len() > 0,
        forall|k: int| i < k < cs.len() ==> (#[trigger] cs[k]).hex != cs[i].hex,
    ensures
        ({
            let new = recorded_all(log, cs, now);
            let c = cs[i];
            exists|a: int|
                {
                    &&& 0 <= a < new.len()
                    &&& (#[trigger] new[a]).hex == c.hex
                    &&& new[a].last_seen_at == now
                    &&& new[a].squawk == c.squawk
                    &&& c.flight is Some && c.flight->0.len() > 0 ==> new[a].callsign == c.flight
                    &&& c.reg is Some ==> new[a].registration == c.reg
                    &&& c.t is Some ==> new[a].type_code == c.t
                    &&& c.operator is Some ==> new[a].operator == c.operator
                    &&& c.is_emergency || c.interesting ==> new[a].notable
                }
        }),
        keyed(recorded_all(log, cs, now)),
    decreases cs.len(),
{
    let less = cs.drop_last();
    let last = cs.len() - 1;
    let mid = recorded_all(log, less, now);
    let new = recorded_all(log, cs, now);
    let c = cs[i];
    lemma_batch_keyed(log, less, now);
    recording_keeps_rows_distinct(mid, cs[last], now);
    if i == last {
        if exists|m: int| 0 <= m < mid.len() && (#[trigger] mid[m]).hex == c.hex {
            let m = choose|m: int| 0 <= m < mid.len() && (#[trigger] mid[m]).hex == c.hex;
            reports_replace_what_was_known(mid, c, now, m);
            sightings_are_counted(mid, c, now, m);
            assert(new[m].hex == c.hex);
        } else {
            first_sightings_add_a_row(mid, c, now);
            assert(new[new.len() - 1].hex == c.hex);
        }
    } else {
        assert forall|k: int| i < k < less.len() implies (#[trigger] less[k]).hex != less[i].hex by {
            assert(cs[k].hex != cs[i].hex);
        }
        batches_log_every_contact(log, less, now, i);
        assert(less[i] == c);
        let a = choose|a: int|
            {
                &&& 0 <= a < mid.len()
                &&& (#[trigger] mid[a]).hex == c.hex
                &&& mid[a].last_seen_at == now
                &&& mid[a].squawk == c.squawk
                &&& c.flight is Some && c.flight->0.len() > 0 ==> mid[a].callsign == c.flight
                &&& c.reg is Some ==> mid[a].registration == c.reg
                &&& c.t is Some ==> mid[a].type_code == c.t
                &&& c.operator is Some ==> mid[a].operator == c.operator
                &&& c.is_emergency || c.interesting ==> mid[a].notable
            };
        assert(cs[last].hex != cs[i].hex);
        if cs[last].hex.len() > 0 {
            recording_touches_one_row(mid, cs[last], now);
        }
        recording_preserves_rows(mid, cs[last], now, a);
        assert(new[a] == mid[a]);
    }
}

proof fn lemma_batch_keyed(log: Seq<Row>, cs: Seq<Contact>, now: i64)
    requires
        keyed(log),
    ensures
        keyed(recorded_all(log, cs, now)),
    decreases cs.len(),
{
    if cs.len() > 0 {
        lemma_batch_keyed(log, cs.drop_last(), now);
        recording_keeps_rows_distinct(recorded_all(log, cs.drop_last(), now), cs.last(), now);
    }
}

/// A catch promotes a row exactly where one has the address and was not caught before.
pub proof fn catches_need_an_uncaught_row(log: Seq<Row>, hex: Seq<char>)
    requires
        keyed(log),
    ensures
        catchable(log, hex) <==> exists|i: int|
            0 <= i < log.len() && (#[trigger] log[i]).hex == hex && log[i].caught_at is None,
{
    if catchable(log, hex) {
        assert(row_at(log, hex, row_index(log, hex)));
        assert(log[row_index(log, hex)].hex == hex);
    }
    if exists|i: int|
        0 <= i < log.len() && (#[trigger] log[i]).hex == hex && log[i].caught_at is None {
        let i = choose|i: int|
            0 <= i < log.len() && (#[trigger] log[i]).hex == hex && log[i].caught_at is None;
        assert(row_at(log, hex, i));
        lemma_row_unique(log, hex, i);
    }
}

proof fn lemma_opened_rows(rows: Seq<Row>)
    ensures
        keyed(distinct_rows(rows)),
        forall|a: int|
            0 <= a < distinct_rows(rows).len() ==> rows.contains(#[trigger] distinct_rows(rows)[a]),
    decreases rows.len(),
{
    if rows.len() > 0 {
        let less = rows.drop_last();
        let row = rows[rows.len() - 1];
        lemma_opened_rows(less);
        let (a, b) = (distinct_rows(rows), distinct_rows(less));
        if row.hex.len() > 0 && !logged(b, row.hex) {
            assert forall|x: int, y: int| 0 <= x < y < a.len() implies #[trigger] a[x].hex
                != #[trigger] a[y].hex by {
                if y == b.len() {
                    assert(!row_at(b, row.hex, x));
                }
            }
        }
        assert forall|x: int| 0 <= x < a.len() implies rows.contains(#[trigger] a[x]) by {
            if x < b.len() {
                assert(less.contains(b[x]));
                let k = choose|k: int| 0 <= k < less.len() && less[k] == b[x];
                assert(rows[k] == a[x]);
            } else {
                assert(rows[rows.len() - 1] == a[x]);
            }
        }
    }
}

proof fn lemma_opened_first(rows: Seq<Row>, i: int)
    requires
        0 <= i < rows.len(),
        rows[i].hex.len() > 0,
        forall|k: int| 0 <= k < i ==> (#[trigger] rows[k]).hex != rows[i].hex,
    ensures
        distinct_rows(rows).contains(rows[i]),
    decreases rows.len(),
{
    let less = rows.drop_last();
    let (a, b) = (distinct_rows(rows), distinct_rows(less));
    if i < less.len() {
        assert forall|k: int| 0 <= k < i implies (#[trigger] less[k]).hex != less[i].hex by {
            assert(rows[k].hex != rows[i].hex);
        }
        lemma_opened_first(less, i);
        let m = choose|m: int| 0 <= m < b.len() && b[m] == less[i];
        assert(a[m] == rows[i]);
    } else {
        lemma_opened_rows(less);
        if logged(b, rows[i].hex) {
            let m = choose|m: int| row_at(b, rows[i].hex, m);
            assert(less.contains(b[m]));
            let k = choose|k: int| 0 <= k < less.len() && less[k] == b[m];
            assert(rows[k].hex == rows[i].hex);
        }
        assert(a[b.len() as int] == rows[i]);
    }
}

proof fn lemma_opened_address(rows: Seq<Row>, i: int)
    requires
        0 <= i < rows.len(),
        rows[i].hex.len() > 0,
    ensures
        logged(distinct_rows(rows), rows[i].hex),
    decreases rows.len(),
{
    let less = rows.drop_last();
    let (a, b) = (distinct_rows(rows), distinct_rows(less));
    if i < less.len() {
        lemma_opened_address(less, i);
        let m = choose|m: int| row_at(b, less[i].hex, m);
        assert(row_at(a, rows[i].hex, m));
    } else if logged(b, rows[i].hex) {
        let m = choose|m: int| row_at(b, rows[i].hex, m);
        assert(row_at(a, rows[i].hex, m));
    } else {
        assert(row_at(a, rows[i].hex, b.len() as int));
    }
}

/// Opening a log keeps the first row of every address, and no other; rows without an address are
/// left out.
pub proof fn opening_keeps_first_rows(rows: Seq<Row>)
    ensures
        keyed(distinct_rows(rows)),
        forall|i: int|
            0 <= i < rows.len() && rows[i].hex.len() > 0 && (forall|k: int|
                0 <= k < i ==> (#[trigger] rows[k]).hex != rows[i].hex) ==> distinct_rows(
                rows,
            ).contains(#[trigger] rows[i]),
        forall|a: int|
            0 <= a < distinct_rows(rows).len() ==> rows.contains(#[trigger] distinct_rows(rows)[a]),
        forall|i: int|
            0 <= i < rows.len() && rows[i].hex.len() > 0 ==> logged(
                distinct_rows(rows),
                (#[trigger] rows[i]).hex,
            ),
{
    lemma_opened_rows(rows);
    assert forall|i: int|
        0 <= i < rows.len() && rows[i].hex.len() > 0 && (forall|k: int|
            0 <= k < i ==> (#[trigger] rows[k]).hex != rows[i].hex) implies distinct_rows(
        rows,
    ).contains(#[trigger] rows[i]) by {
        lemma_opened_first(rows, i);
    }
    assert forall|i: int| 0 <= i < rows.len() && rows[i].hex.len() > 0 implies logged(
        distinct_rows(rows),
        (#[trigger] rows[i]).hex,
    ) by {
        lemma_opened_address(rows, i);
    }
}

proof fn lemma_same_types(a: Seq<Row>, b: Seq<Row>)
    requires
        a.len() == b.len(),
        forall|i: int| 0 <= i < a.len() ==> (#[trigger] a[i]).type_code == b[i].type_code,
    ensures
        known_types(a) == known_types(b),
    decreases a.len(),
{
    if a.len() > 0 {
        assert(a[a.len() - 1].type_code == b[a.len() - 1].type_code);
        lemma_same_types(a.drop_last(), b.drop_last());
    }
}

/// A catch changes the tier of no type: the tiers are those of the whole log, caught or not.
pub proof fn catching_changes_no_tier(log: Seq<Row>, hex: Seq<char>, now: i64)
    requires
        keyed(log),
    ensures
        type_tiers(caught(log, hex, now)) == type_tiers(log),
{
    catching_touches_one_stamp(log, hex, now);
    let new = caught(log, hex, now);
    assert forall|i: int| 0 <= i < new.len() implies (#[trigger] new[i]).type_code
        == log[i].type_code by {}
    lemma_same_types(new, log);
}

/// Whatever tells the rows of two logs apart, as long as row for row they have the same type codes
/// they have the same tiers.
pub proof fn tiers_depend_on_type_codes_alone(a: Seq<Row>, b: Seq<Row>)
    requires
        a.len() == b.len(),
        forall|i: int| 0 <= i < a.len() ==> (#[trigger] a[i]).type_code == b[i].type_code,
    ensures
        type_tiers(a) == type_tiers(b),
{
    lemma_same_types(a, b);
}

proof fn lemma_type_rows(log: Seq<Row>, t: Seq<char>)
    requires
        t.len() > 0,
    ensures
        occurrences(known_types(log), t) == log.filter(|r: Row| r.type_code == Some(t)).len(),
        known_types(log).contains(t) <==> exists|i: int|
            0 <= i < log.len() && (#[trigger] log[i]).type_code == Some(t),
    decreases log.len(),
{
    reveal(Seq::filter);
    if log.len() > 0 {
        let less = log.drop_last();
        let last = log.len() - 1;
        lemma_type_rows(less, t);
        let (a, b) = (known_types(log), known_types(less));
        if a.len() > b.len() {
            assert(a.drop_last() =~= b);
        }
        if b.contains(t) {
            let k = choose|k: int| 0 <= k < b.len() && b[k] == t;
            assert(a[k] == t);
            let i = choose|i: int| 0 <= i < less.len() && (#[trigger] less[i]).type_code == Some(t);
            assert(log[i].type_code == Some(t));
        }
        if log[last].type_code == Some(t) {
            assert(a[b.len() as int] == t);
        }
        if a.contains(t) && !b.contains(t) {
            let k = choose|k: int| 0 <= k < a.len() && a[k] == t;
            if k < b.len() {
                assert(b[k] == t);
            }
            assert(log[last].type_code == Some(t));
        }
        if exists|i: int| 0 <= i < log.len() && (#[trigger] log[i]).type_code == Some(t) {
            let i = choose|i: int| 0 <= i < log.len() && (#[trigger] log[i]).type_code == Some(t);
            if i < last {
                assert(less[i].type_code == Some(t));
            }
        }
    }
}

proof fn lemma_known_types_not_empty(log: Seq<Row>)
    ensures
        forall|k: int| 0 <= k < known_types(log).len() ==> (#[trigger] known_types(log)[k]).len() > 0,
    decreases log.len(),
{
    if log.len() > 0 {
        let less = known_types(log.drop_last());
        lemma_known_types_not_empty(log.drop_last());
        assert forall|k: int| 0 <= k < known_types(log).len() implies (
        #[trigger] known_types(log)[k]).len() > 0 by {
            if k < less.len() {
                assert(known_types(log)[k] == less[k]);
            }
        }
    }
}

/// The counts behind the tiers take in every logged row, caught or not, and each once: every type
/// code that is not empty is listed, once, with the number of rows that have it, and nothing else
/// is listed. All counts together are the number of rows with such a code.
pub proof fn type_counts_take_in_every_row(log: Seq<Row>)
    ensures
        ({
            let counts = type_counts(log);
            &&& all_counted(counts)
            &&& forall|i: int, j: int|
                0 <= i < j < counts.len() ==> (#[trigger] counts[i]).0 != (#[trigger] counts[j]).0
            &&& forall|i: int|
                0 <= i < log.len() && (#[trigger] log[i]).type_code is Some
                    && log[i].type_code->0.len() > 0 ==> exists|k: int|
                    0 <= k < counts.len() && (#[trigger] counts[k]).0 == log[i].type_code->0
            &&& forall|k: int|
                0 <= k < counts.len() ==> {
                    let t = (#[trigger] counts[k]).0;
                    &&& t.len() > 0
                    &&& counts[k].1 == log.filter(|r: Row| r.type_code == Some(t)).len()
                    &&& counts[k].1 > 0
                }
            &&& count_sum(counts) == log.filter(
                |r: Row| r.type_code is Some && r.type_code->0.len() > 0,
            ).len()
        }),
{
    let ts = known_types(log);
    let ks = distinct(ts);
    let counts = type_counts(log);
    distinct_keeps_each_once(ts);
    lemma_known_types_not_empty(log);
    assert forall|k: int| 0 <= k < counts.len() implies {
        let t = (#[trigger] counts[k]).0;
        &&& t.len() > 0
        &&& counts[k].1 == log.filter(|r: Row| r.type_code == Some(t)).len()
        &&& counts[k].1 > 0
    } by {
        let t = ks[k];
        assert(ks.contains(t));
        assert(ts.contains(t));
        let m = choose|m: int| 0 <= m < ts.len() && ts[m] == t;
        assert(ts[m].len() > 0);
        lemma_type_rows(log, t);
        lemma_occurs(ts, t, m);
    }
    assert forall|i: int|
        0 <= i < log.len() && (#[trigger] log[i]).type_code is Some && log[i].type_code->0.len()
            > 0 implies exists|k: int|
        0 <= k < counts.len() && (#[trigger] counts[k]).0 == log[i].type_code->0 by {
        let t = log[i].type_code->0;
        lemma_type_rows(log, t);
        assert(ts.contains(t));
        assert(ks.contains(t));
        let k = choose|k: int| 0 <= k < ks.len() && ks[k] == t;
        assert(counts[k].0 == t);
    }
    assert forall|i: int| 0 <= i < ts.len() implies ks.contains(#[trigger] ts[i]) by {
        assert(ts.contains(ts[i]));
    }
    lemma_whole_sum(ks, ts);
    types_are_listed_row_by_row(log);
}

proof fn lemma_occurs(v: Seq<Seq<char>>, t: Seq<char>, m: int)
    requires
        0 <= m < v.len(),
        v[m] == t,
    ensures
        occurrences(v, t) > 0,
    decreases v.len(),
{
    lemma_occurrences_count(v.drop_last(), t);
    if m < v.len() - 1 {
        lemma_occurs(v.drop_last(), t, m);
    }
}

proof fn lemma_occurrences_count(v: Seq<Seq<char>>, t: Seq<char>)
    ensures
        occurrences(v, t) >= 0,
    decreases v.len(),
{
    if v.len() > 0 {
        lemma_occurrences_count(v.drop_last(), t);
    }
}

proof fn lemma_whole_sum(kinds: Seq<Seq<char>>, v: Seq<Seq<char>>)
    requires
        kinds.no_duplicates(),
        forall|i: int| 0 <= i < v.len() ==> kinds.contains(#[trigger] v[i]),
    ensures
        occurrence_sum(kinds, v) == v.len(),
    decreases v.len(),
{
    if v.len() == 0 {
        lemma_sum_step(kinds, v, v);
    } else {
        let less = v.drop_last();
        assert forall|i: int| 0 <= i < less.len() implies kinds.contains(#[trigger] less[i]) by {
            assert(less[i] == v[i]);
        }
        lemma_whole_sum(kinds, less);
        lemma_sum_step(kinds, v, less);
        assert(kinds.contains(v[v.len() - 1]));
    }
}

/// Every type code that is not empty and stands in the log, caught or not, has a tier, and nothing
/// else has one.
pub proof fn every_logged_type_has_a_tier(log: Seq<Row>, t: Seq<char>)
    ensures
        type_tiers(log).contains_key(t) <==> t.len() > 0 && exists|i: int|
            0 <= i < log.len() && (#[trigger] log[i]).type_code == Some(t),
{
    let counts = type_counts(log);
    type_counts_take_in_every_row(log);
    if exists|i: int| 0 <= i < log.len() && (#[trigger] log[i]).type_code == Some(t) {
        let i = choose|i: int| 0 <= i < log.len() && (#[trigger] log[i]).type_code == Some(t);
        if t.len() > 0 {
            let k = choose|k: int|
                0 <= k < counts.len() && (#[trigger] counts[k]).0 == log[i].type_code->0;
            lemma_positive_sum(counts, k);
            tiers_go_by_the_share_ahead(counts, k);
        }
    }
    if type_tiers(log).contains_key(t) {
        tiers_are_for_counted_types(counts, t);
        let k = choose|k: int| 0 <= k < counts.len() && (#[trigger] counts[k]).0 == t;
        assert(counts[k].1 > 0);
        let ks = distinct(known_types(log));
        distinct_keeps_each_once(known_types(log));
        assert(ks[k] == t);
        assert(ks.contains(t));
        assert(known_types(log).contains(t));
        lemma_type_rows(log, t);
    }
}

/// Types are counted in the order in which they first appear in the log.
pub proof fn types_are_counted_in_order_of_appearance(log: Seq<Row>, a: int, b: int)
    requires
        0 <= a < b < type_counts(log).len(),
    ensures
        exists|i: int|
            0 <= i < log.len() && (#[trigger] log[i]).type_code == Some(type_counts(log)[a].0)
                && forall|j: int|
                0 <= j <= i ==> (#[trigger] log[j]).type_code != Some(type_counts(log)[b].0),
    decreases log.len(),
{
    let less = log.drop_last();
    let last = log.len() - 1;
    let (v, w) = (known_types(log), known_types(less));
    let (ks, ls) = (distinct(v), distinct(w));
    if v.len() > w.len() {
        assert(v.drop_last() =~= w);
    }
    let (s, t) = (ks[a], ks[b]);
    distinct_keeps_each_once(v);
    distinct_keeps_each_once(w);
    lemma_known_types_not_empty(log);
    assert(v.contains(t)) by {
        assert(ks.contains(t));
    }
    let m = choose|m: int| 0 <= m < v.len() && v[m] == t;
    assert(t.len() > 0);
    if b < ls.len() {
        assert(ls[a] == s && ls[b] == t);
        assert(type_counts(less)[a].0 == s && type_counts(less)[b].0 == t);
        types_are_counted_in_order_of_appearance(less, a, b);
        let i = choose|i: int|
            0 <= i < less.len() && (#[trigger] less[i]).type_code == Some(type_counts(less)[a].0)
                && forall|j: int|
                0 <= j <= i ==> (#[trigger] less[j]).type_code != Some(type_counts(less)[b].0);
        assert(log[i].type_code == Some(s));
        assert forall|j: int| 0 <= j <= i implies (#[trigger] log[j]).type_code != Some(t) by {
            assert(less[j].type_code != Some(t));
        }
    } else {
        assert(ls[a] == s);
        assert(ls.contains(s));
        assert(w.contains(s));
        let n = choose|n: int| 0 <= n < w.len() && w[n] == s;
        assert(v[n] == s);
        assert(s.len() > 0);
        lemma_type_rows(less, s);
        let i = choose|i: int| 0 <= i < less.len() && (#[trigger] less[i]).type_code == Some(s);
        assert(!ls.contains(t)) by {
            if ls.contains(t) {
                let x = choose|x: int| 0 <= x < ls.len() && ls[x] == t;
                assert(ks[x] == t);
            }
        }
        assert(!w.contains(t));
        lemma_type_rows(less, t);
        assert(log[i].type_code == Some(s));
        assert forall|j: int| 0 <= j <= i implies (#[trigger] log[j]).type_code != Some(t) by {
            assert(less[j].type_code != Some(t));
        }
    }
}

proof fn lemma_positive_sum(counts: Seq<(Seq<char>, int)>, k: int)
    requires
        all_counted(counts),
        0 <= k < counts.len(),
        counts[k].1 > 0,
    ensures
        count_sum(counts) > 0,
    decreases counts.len(),
{
    if k < counts.len() - 1 {
        let less = counts.drop_last();
        assert forall|i: int| 0 <= i < less.len() implies #[trigger] less[i].1 >= 0 by {
            assert(less[i] == counts[i]);
        }
        lemma_positive_sum(less, k);
        assert(counts[counts.len() - 1].1 >= 0);
    } else {
        let less = counts.drop_last();
        assert forall|i: int| 0 <= i < less.len() implies #[trigger] less[i].1 >= 0 by {
            assert(less[i] == counts[i]);
        }
        lemma_sum_not_negative(less);
    }
}

proof fn lemma_sum_not_negative(counts: Seq<(Seq<char>, int)>)
    ensures
        all_counted(counts) ==> count_sum(counts) >= 0,
    decreases counts.len(),
{
    if counts.len() > 0 && all_counted(counts) {
        let less = counts.drop_last();
        assert forall|i: int| 0 <= i < less.len() implies #[trigger] less[i].1 >= 0 by {
            assert(less[i] == counts[i]);
        }
        lemma_sum_not_negative(less);
        assert(counts[counts.len() - 1].1 >= 0);
    }
}

/// A dex entry repeats its row, and its tier is that of its type in the whole log: legendary
/// where the row is notable, and none where the type is not known.
pub proof fn dex_entries_repeat_their_rows(log: Seq<Row>, k: int)
    requires
        keyed(log),
        0 <= k < dex_of(log).len(),
    ensures
        exists|i: int|
            {
                let (e, r) = (dex_of(log)[k], #[trigger] log[i]);
                &&& 0 <= i < log.len()
                &&& r.caught_at == Some(e.caught_at)
                &&& e.hex == r.hex
                &&& e.registration == r.registration
                &&& e.type_code == r.type_code
                &&& e.type_desc == r.type_desc
                &&& e.operator == r.operator
                &&& e.callsign == r.callsign
                &&& e.squawk == r.squawk
                &&& e.notable == r.notable
                &&& e.notable_reason == r.notable_reason
                &&& e.first_seen_at == r.first_seen_at
                &&& e.last_seen_at == r.last_seen_at
                &&& e.seen_count == r.seen_count
                &&& r.notable ==> e.rarity == Some("legendary"@)
                &&& !r.notable && r.type_code is Some && r.type_code->0.len() > 0 ==> e.rarity
                    == Some(type_tiers(log)[r.type_code->0].name())
                &&& !r.notable && (r.type_code is None || r.type_code->0.len() == 0)
                    ==> e.rarity is None
            },
{
    let rows = dex_rows(log);
    let keys = rows.map_values(|r: Row| -(r.caught_at->0 as int));
    let p = ranking(keys);
    stable_order_exists(keys);
    lemma_dex_rows_members(log);
    lemma_dex_rows(log);
    let row = rows[p[k]];
    assert(dex_of(log)[k] == dex_row(row, type_tiers(log)));
    assert(log.contains(row));
    let i = choose|i: int| 0 <= i < log.len() && log[i] == row;
    if row.type_code is Some {
        every_logged_type_has_a_tier(log, row.type_code->0);
    }
    assert(rows[p[k]].caught_at is Some);
    assert(log[i] == row);
}

} // verus!
