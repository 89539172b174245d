//! The two pollers: what each reply amounts to, which alerts it fires, and what is remembered.
use vstd::arithmetic::power2::pow2;
use vstd::prelude::*;

use crate::alerts::{fires, observed, swept, AlertClass, AlertEngine, Latch};
use crate::classify::{
    classified, classify, copy_contact, is_surface, surface, Contact, Measure, UiAircraft,
};
use crate::clock::{now_secs, Clock};
use crate::config::Config;
use crate::double::{key_orders_values, number, Double};
use crate::feeds::{
    fresh_global, fresh_local, is_fresh_global, is_fresh_local, old_records_are_dropped, Aircraft,
};
use crate::order::{
    arranged, before, key_view, lemma_ranking_len, position_view, rank, ranking, stable_order,
    stable_order_exists,
};
use crate::sighting::Row;
use crate::store::{
    after_catch, after_record, batches_log_every_contact, catchable, catching_touches_one_stamp,
    contact_views, in_dex, keyed, recorded_all, recorded_contact_can_be_caught, Store,
};
use crate::table::Table;
use crate::text::{copy_texts, join, same_text, text_of, texts_of};

verus! {

/// The largest finite number.
pub const LARGEST: u64 = 0x7fef_ffff_ffff_ffff;

/// The key by which contacts are ordered. A contact without a distance counts as very far.
pub open spec fn distance_key(c: Contact) -> int {
    match c.dst_km {
        Some(d) => if d.is_nan() {
            number(LARGEST).key()
        } else {
            d.key()
        },
        None => number(LARGEST).key(),
    }
}

/// The contacts, nearest first, ties in their given order.
pub open spec fn nearest_first(cs: Seq<Contact>) -> Seq<Contact> {
    arranged(cs, ranking(cs.map_values(|c: Contact| distance_key(c))))
}

/// The contacts of the records that are recent enough for the disc, in feed order.
pub open spec fn heard_locally(
    records: Seq<Aircraft>,
    measures: Seq<Option<Measure>>,
    cfg: Config,
) -> Seq<Contact>
    decreases records.len(),
{
    if records.len() == 0 {
        Seq::empty()
    } else {
        let rest = heard_locally(records.drop_last(), measures, cfg);
        let last = records.len() - 1;
        if is_fresh_local(records[last].seen) {
            rest.push(classified(records[last], cfg, measures[last]))
        } else {
            rest
        }
    }
}

/// The contact belongs to the alert class.
pub open spec fn in_class(class: AlertClass, c: Contact) -> bool {
    match class {
        AlertClass::Interesting => c.overhead || c.interesting,
        AlertClass::Emergency => c.is_emergency,
    }
}

/// The addresses of the contacts in the class, in order.
pub open spec fn members(class: AlertClass, cs: Seq<Contact>) -> Seq<Seq<char>>
    decreases cs.len(),
{
    if cs.len() == 0 {
        Seq::empty()
    } else {
        let rest = members(class, cs.drop_last());
        if in_class(class, cs.last()) {
            rest.push(cs.last().hex)
        } else {
            rest
        }
    }
}

/// The latches after every contact in the class was observed at `now`.
pub open spec fn observed_all(
    latches: Map<Seq<char>, Latch>,
    class: AlertClass,
    cs: Seq<Contact>,
    cooldown: u128,
    now: u128,
) -> Map<Seq<char>, Latch>
    decreases cs.len(),
{
    if cs.len() == 0 {
        latches
    } else {
        let rest = observed_all(latches, class, cs.drop_last(), cooldown, now);
        if in_class(class, cs.last()) {
            observed(rest, cs.last().hex, cooldown, now)
        } else {
            rest
        }
    }
}

/// The positions of the contacts whose observation fires an alert, in order.
pub open spec fn alerting(
    latches: Map<Seq<char>, Latch>,
    class: AlertClass,
    cs: Seq<Contact>,
    cooldown: u128,
    now: u128,
) -> Seq<int>
    decreases cs.len(),
{
    if cs.len() == 0 {
        Seq::empty()
    } else {
        let rest = alerting(latches, class, cs.drop_last(), cooldown, now);
        if in_class(class, cs.last()) && fires(
            observed_all(latches, class, cs.drop_last(), cooldown, now),
            cs.last().hex,
            cooldown,
            now,
        ) {
            rest.push(cs.len() - 1)
        } else {
            rest
        }
    }
}

/// The positions of the contacts that belong to any class, in order.
pub open spec fn noteworthy(cs: Seq<Contact>) -> Seq<int>
    decreases cs.len(),
{
    if cs.len() == 0 {
        Seq::empty()
    } else {
        let rest = noteworthy(cs.drop_last());
        if in_class(AlertClass::Interesting, cs.last()) || in_class(
            AlertClass::Emergency,
            cs.last(),
        ) {
            rest.push(cs.len() - 1)
        } else {
            rest
        }
    }
}

/// The positions of the contacts in the class, in order.
pub open spec fn positions(class: AlertClass, cs: Seq<Contact>) -> Seq<int>
    decreases cs.len(),
{
    if cs.len() == 0 {
        Seq::empty()
    } else {
        let rest = positions(class, cs.drop_last());
        if in_class(class, cs.last()) {
            rest.push(cs.len() - 1)
        } else {
            rest
        }
    }
}

/// The freshest contact of each address, after the contacts came in.
pub open spec fn refreshed(
    latest: Map<Seq<char>, Contact>,
    cs: Seq<Contact>,
) -> Map<Seq<char>, Contact>
    decreases cs.len(),
{
    if cs.len() == 0 {
        latest
    } else {
        refreshed(latest, cs.drop_last()).insert(cs.last().hex, cs.last())
    }
}

/// A contact on the endpoint for a squawk: everything there wears the squawk, so that an
/// aircraft is an emergency even where its own squawk field lags behind.
pub open spec fn trusted(c: Contact, sqk: Seq<char>) -> Contact {
    if c.is_emergency || is_surface(c.category) {
        c
    } else {
        Contact { is_emergency: true, reasons: c.reasons.push("squawk:"@ + sqk), ..c }
    }
}

/// The contact stands in the list under its address at `i`.
pub open spec fn hit_at(hits: Seq<Contact>, hex: Seq<char>, i: int) -> bool {
    0 <= i < hits.len() && hits[i].hex == hex
}

/// A list of contacts with one contact more. A contact that is there already is replaced.
pub open spec fn with_hit(hits: Seq<Contact>, c: Contact) -> Seq<Contact> {
    if exists|i: int| hit_at(hits, c.hex, i) {
        hits.update(choose|i: int| hit_at(hits, c.hex, i), c)
    } else {
        hits.push(c)
    }
}

/// No two contacts in the list share an address.
pub open spec fn one_each(hits: Seq<Contact>) -> bool {
    forall|i: int, j: int|
        0 <= i < j < hits.len() ==> #[trigger] hits[i].hex != #[trigger] hits[j].hex
}

/// The contacts of a sweep after the reply for one squawk came in.
pub open spec fn with_reply(
    hits: Seq<Contact>,
    sqk: Seq<char>,
    records: Seq<Aircraft>,
    measures: Seq<Option<Measure>>,
    cfg: Config,
) -> Seq<Contact>
    decreases records.len(),
{
    if records.len() == 0 {
        hits
    } else {
        let rest = with_reply(hits, sqk, records.drop_last(), measures, cfg);
        let last = records.len() - 1;
        if is_fresh_global(records[last].seen) {
            with_hit(rest, trusted(classified(records[last], cfg, measures[last]), sqk))
        } else {
            rest
        }
    }
}

/// The contacts of a local reply: the recent ones, classified, nearest first.
pub fn survey(records: &Vec<Aircraft>, measures: &Vec<Option<Measure>>, cfg: &Config) -> (r: Vec<
    UiAircraft,
>)
    requires
        measures@.len() == records@.len(),
    ensures
        contact_views(r@) == nearest_first(heard_locally(records@, measures@, *cfg)),
{
    let n: usize = records.len();
    let mut heard: Vec<UiAircraft> = Vec::new();
    let mut keys: Vec<i128> = Vec::new();
    let mut i: usize = 0;
    assert(contact_views(heard@) =~= heard_locally(records@.take(0), measures@, *cfg));
    while i < n
        invariant
            n == records@.len(),
            n == measures@.len(),
            i <= n,
            contact_views(heard@) == heard_locally(records@.take(i as int), measures@, *cfg),
            key_view(keys@) == contact_views(heard@).map_values(|c: Contact| distance_key(c)),
        decreases n - i,
    {
        let ghost before = contact_views(heard@);
        let ghost before_keys = key_view(keys@);
        assert(records@.take(i + 1).drop_last() == records@.take(i as int));
        if fresh_local(&records[i].seen) {
            let c: UiAircraft = classify(&records[i], cfg, &measures[i]);
            let k: i128 = key_of(&c);
            keys.push(k);
            heard.push(c);
            assert(contact_views(heard@) =~= before.push(c@));
            assert(key_view(keys@) =~= before_keys.push(k as int));
            assert(key_view(keys@) =~= contact_views(heard@).map_values(
                |c: Contact| distance_key(c),
            ));
        }
        i += 1;
    }
    assert(records@.take(n as int) == records@);
    let ghost cs = contact_views(heard@);
    let p: Vec<usize> = rank(&keys);
    let ghost order = position_view(p@);
    let mut r: Vec<UiAircraft> = Vec::new();
    let m: usize = p.len();
    let mut j: usize = 0;
    assert(contact_views(r@) =~= nearest_first(cs).take(0));
    while j < m
        invariant
            m == p@.len(),
            j <= m,
            cs == contact_views(heard@),
            keys@.len() == heard@.len(),
            order == position_view(p@),
            stable_order(key_view(keys@), order),
            order == ranking(cs.map_values(|c: Contact| distance_key(c))),
            contact_views(r@) == nearest_first(cs).take(j as int),
        decreases m - j,
    {
        assert(0 <= order[j as int] < cs.len());
        let ghost before = contact_views(r@);
        let c: UiAircraft = copy_contact(&heard[p[j]]);
        r.push(c);
        assert(contact_views(r@) =~= before.push(c@));
        assert(nearest_first(cs)[j as int] == c@);
        j += 1;
    }
    assert(nearest_first(cs).take(m as int) =~= nearest_first(cs));
    r
}

fn key_of(c: &UiAircraft) -> (r: i128)
    ensures
        r == distance_key(c@),
{
    let far: Double = Double { bits: LARGEST };
    match c.dst_km {
        Some(d) => if d.no_number() {
            far.order_key()
        } else {
            d.order_key()
        },
        None => far.order_key(),
    }
}

fn belongs(class: AlertClass, c: &UiAircraft) -> (r: bool)
    ensures
        r == in_class(class, c@),
{
    match class {
        AlertClass::Interesting => c.overhead || c.interesting,
        AlertClass::Emergency => c.is_emergency,
    }
}

/// The positions of the contacts that belong to any class, in order.
pub fn events(contacts: &Vec<UiAircraft>) -> (r: Vec<usize>)
    ensures
        position_view(r@) == noteworthy(contact_views(contacts@)),
{
    let ghost cs = contact_views(contacts@);
    let n: usize = contacts.len();
    let mut r: Vec<usize> = Vec::new();
    let mut i: usize = 0;
    assert(position_view(r@) =~= noteworthy(cs.take(0)));
    while i < n
        invariant
            n == contacts@.len(),
            cs == contact_views(contacts@),
            i <= n,
            position_view(r@) == noteworthy(cs.take(i as int)),
        decreases n - i,
    {
        let ghost before = position_view(r@);
        assert(cs.take(i + 1).drop_last() == cs.take(i as int));
        assert(cs.take(i + 1).last() == contacts@[i as int]@);
        if belongs(AlertClass::Interesting, &contacts[i]) || belongs(
            AlertClass::Emergency,
            &contacts[i],
        ) {
            r.push(i);
            assert(position_view(r@) =~= before.push(i as int));
        }
        i += 1;
    }
    assert(cs.take(n as int) == cs);
    r
}

/// The positions of the emergencies, in order.
pub fn emergencies(contacts: &Vec<UiAircraft>) -> (r: Vec<usize>)
    ensures
        position_view(r@) == positions(AlertClass::Emergency, contact_views(contacts@)),
{
    let ghost cs = contact_views(contacts@);
    let n: usize = contacts.len();
    let mut r: Vec<usize> = Vec::new();
    let mut i: usize = 0;
    assert(position_view(r@) =~= positions(AlertClass::Emergency, cs.take(0)));
    while i < n
        invariant
            n == contacts@.len(),
            cs == contact_views(contacts@),
            i <= n,
            position_view(r@) == positions(AlertClass::Emergency, cs.take(i as int)),
        decreases n - i,
    {
        let ghost before = position_view(r@);
        assert(cs.take(i + 1).drop_last() == cs.take(i as int));
        assert(cs.take(i + 1).last() == contacts@[i as int]@);
        if belongs(AlertClass::Emergency, &contacts[i]) {
            r.push(i);
            assert(position_view(r@) =~= before.push(i as int));
        }
        i += 1;
    }
    assert(cs.take(n as int) == cs);
    r
}

/// Observes every contact in the class. Returns the positions that fire, and the addresses in
/// the class.
fn observe_class(
    engine: &mut AlertEngine,
    class: AlertClass,
    contacts: &Vec<UiAircraft>,
    cooldown: u128,
    now: u128,
) -> (r: (Vec<usize>, Vec<String>))
    requires
        old(engine).wf(),
    ensures
        final(engine).wf(),
        final(engine)@ == observed_all(
            old(engine)@,
            class,
            contact_views(contacts@),
            cooldown,
            now,
        ),
        position_view(r.0@) == alerting(
            old(engine)@,
            class,
            contact_views(contacts@),
            cooldown,
            now,
        ),
        texts_of(r.1@) == members(class, contact_views(contacts@)),
{
    let ghost cs = contact_views(contacts@);
    let ghost start = engine@;
    let n: usize = contacts.len();
    let mut fired: Vec<usize> = Vec::new();
    let mut present: Vec<String> = Vec::new();
    let mut i: usize = 0;
    assert(position_view(fired@) =~= alerting(start, class, cs.take(0), cooldown, now));
    assert(texts_of(present@) =~= members(class, cs.take(0)));
    while i < n
        invariant
            n == contacts@.len(),
            cs == contact_views(contacts@),
            i <= n,
            engine.wf(),
            engine@ == observed_all(start, class, cs.take(i as int), cooldown, now),
            position_view(fired@) == alerting(start, class, cs.take(i as int), cooldown, now),
            texts_of(present@) == members(class, cs.take(i as int)),
        decreases n - i,
    {
        let ghost before_fired = position_view(fired@);
        let ghost before_present = texts_of(present@);
        assert(cs.take(i + 1).drop_last() == cs.take(i as int));
        assert(cs.take(i + 1).last() == contacts@[i as int]@);
        if belongs(class, &contacts[i]) {
            present.push(contacts[i].hex.clone());
            assert(texts_of(present@) =~= before_present.push(contacts@[i as int].hex@));
            if engine.observe_at(contacts[i].hex.as_str(), cooldown, now) {
                fired.push(i);
                assert(position_view(fired@) =~= before_fired.push(i as int));
            }
        }
        i += 1;
    }
    assert(cs.take(n as int) == cs);
    (fired, present)
}

/// What the radar remembers.
pub ghost struct Scope {
    /// The latches for interesting contacts.
    pub interesting: Map<Seq<char>, Latch>,
    /// The latches for emergencies, shared by both pollers.
    pub emergency: Map<Seq<char>, Latch>,
    /// The addresses of the emergencies that the last local reply held.
    pub local: Set<Seq<char>>,
    /// The addresses of the emergencies that the last sweep found.
    pub global: Set<Seq<char>>,
    /// The freshest contact of each address.
    pub latest: Map<Seq<char>, Contact>,
}

/// What is remembered after a local reply: interesting contacts are swept against the reply
/// alone, emergencies against the reply and the last sweep, and only the contacts of the reply
/// are kept.
pub open spec fn after_local(scope: Scope, cs: Seq<Contact>, cooldown: u128, now: u128) -> Scope {
    let local = members(AlertClass::Emergency, cs).to_set();
    Scope {
        interesting: swept(
            observed_all(scope.interesting, AlertClass::Interesting, cs, cooldown, now),
            members(AlertClass::Interesting, cs).to_set(),
            now,
        ),
        emergency: swept(
            observed_all(scope.emergency, AlertClass::Emergency, cs, cooldown, now),
            local + scope.global,
            now,
        ),
        local,
        global: scope.global,
        latest: refreshed(Map::empty(), cs),
    }
}

/// What is remembered after a sweep over the emergency squawks: emergencies are swept against
/// the sweep and the last local reply, and the contacts of the sweep join those that are kept.
pub open spec fn after_global(scope: Scope, hits: Seq<Contact>, cooldown: u128, now: u128) -> Scope {
    let global = members(AlertClass::Emergency, hits).to_set();
    Scope {
        interesting: scope.interesting,
        emergency: swept(
            observed_all(scope.emergency, AlertClass::Emergency, hits, cooldown, now),
            global + scope.local,
            now,
        ),
        local: scope.local,
        global,
        latest: refreshed(scope.latest, hits),
    }
}

/// The alerts that a local reply fires: the interesting contacts, then the emergencies.
pub open spec fn local_alerts(
    scope: Scope,
    cs: Seq<Contact>,
    cooldown: u128,
    now: u128,
) -> Seq<(AlertClass, int)> {
    alerting(scope.interesting, AlertClass::Interesting, cs, cooldown, now).map_values(
        |i: int| (AlertClass::Interesting, i),
    ) + alerting(scope.emergency, AlertClass::Emergency, cs, cooldown, now).map_values(
        |i: int| (AlertClass::Emergency, i),
    )
}

/// The view of a list of alerts.
pub open spec fn alert_views(v: Seq<(AlertClass, usize)>) -> Seq<(AlertClass, int)> {
    v.map_values(|a: (AlertClass, usize)| (a.0, a.1 as int))
}

/// What the radar remembers between polls.
pub struct Radar {
    interesting: AlertEngine,
    emergency: AlertEngine,
    emerg_local: Vec<String>,
    emerg_global: Vec<String>,
    latest: Table<UiAircraft>,
    clock: Clock,
}

impl Radar {
    /// What is remembered is well formed.
    pub closed spec fn wf(&self) -> bool {
        self.interesting.wf() && self.emergency.wf() && self.latest.wf()
    }

    /// What is remembered.
    pub closed spec fn view(&self) -> Scope {
        Scope {
            interesting: self.interesting@,
            emergency: self.emergency@,
            local: texts_of(self.emerg_local@).to_set(),
            global: texts_of(self.emerg_global@).to_set(),
            latest: self.latest@.map_values(|a: UiAircraft| a@),
        }
    }

    /// The last reading of the radar's clock.
    pub closed spec fn time(&self) -> u128 {
        self.clock.time()
    }

    /// A radar that remembers nothing.
    pub fn new() -> (r: Radar)
        ensures
            r.wf(),
            r.time() == 0,
            r@.interesting == Map::<Seq<char>, Latch>::empty(),
            r@.emergency == Map::<Seq<char>, Latch>::empty(),
            r@.local == Set::<Seq<char>>::empty(),
            r@.global == Set::<Seq<char>>::empty(),
            r@.latest == Map::<Seq<char>, Contact>::empty(),
    {
        let r: Radar = Radar {
            interesting: AlertEngine::new(),
            emergency: AlertEngine::new(),
            emerg_local: Vec::new(),
            emerg_global: Vec::new(),
            latest: Table::new(),
            clock: Clock::start(),
        };
        assert(texts_of(r.emerg_local@) =~= Seq::empty());
        assert(texts_of(r.emerg_global@) =~= Seq::empty());
        assert(r@.local =~= Set::empty());
        assert(r@.global =~= Set::empty());
        assert(r@.latest =~= Map::empty());
        r
    }

    /// Takes in the contacts of a local reply, at a time that is read from the clock. Returns the
    /// alerts that it fires, each with the position of its contact.
    pub fn local_poll(&mut self, contacts: &Vec<UiAircraft>, cooldown_secs: u64) -> (r: Vec<
        (AlertClass, usize),
    >)
        requires
            old(self).wf(),
        ensures
            final(self).wf(),
            final(self).time() >= old(self).time(),
            final(self)@ == after_local(
                old(self)@,
                contact_views(contacts@),
                nanos(cooldown_secs),
                final(self).time(),
            ),
            alert_views(r@) == local_alerts(
                old(self)@,
                contact_views(contacts@),
                nanos(cooldown_secs),
                final(self).time(),
            ),
    {
        let now: u128 = self.clock.now();
        self.local_poll_at(contacts, cooldown_secs, now)
    }

    /// `local_poll` with the time given.
    pub fn local_poll_at(
        &mut self,
        contacts: &Vec<UiAircraft>,
        cooldown_secs: u64,
        now: u128,
    ) -> (r: Vec<(AlertClass, usize)>)
        requires
            old(self).wf(),
        ensures
            final(self).wf(),
            final(self).time() == old(self).time(),
            final(self)@ == after_local(
                old(self)@,
                contact_views(contacts@),
                nanos(cooldown_secs),
                now,
            ),
            alert_views(r@) == local_alerts(
                old(self)@,
                contact_views(contacts@),
                nanos(cooldown_secs),
                now,
            ),
    {
        let ghost scope = self@;
        let ghost cs = contact_views(contacts@);
        let cooldown: u128 = cooldown_nanos(cooldown_secs);
        let (noted, present): (Vec<usize>, Vec<String>) = observe_class(
            &mut self.interesting,
            AlertClass::Interesting,
            contacts,
            cooldown,
            now,
        );
        self.interesting.sweep_at(&present, now);
        let (alarmed, local): (Vec<usize>, Vec<String>) = observe_class(
            &mut self.emergency,
            AlertClass::Emergency,
            contacts,
            cooldown,
            now,
        );
        let everywhere: Vec<String> = united(&local, &self.emerg_global);
        self.emergency.sweep_at(&everywhere, now);
        self.emerg_local = local;
        self.latest = Table::new();
        proof {
            assert(self.latest@.map_values(|a: UiAircraft| a@) =~= Map::empty());
        }
        keep_latest(&mut self.latest, contacts);
        let mut fire: Vec<(AlertClass, usize)> = Vec::new();
        assert(alert_views(fire@) =~= Seq::empty());
        announce(&mut fire, AlertClass::Interesting, &noted);
        announce(&mut fire, AlertClass::Emergency, &alarmed);
        assert(alert_views(fire@) =~= local_alerts(scope, cs, cooldown, now));
        fire
    }

    /// Takes in the contacts of a sweep over the emergency squawks, at a time that is read from
    /// the clock. Returns the positions of those that fire an alert.
    pub fn global_poll(&mut self, hits: &Vec<UiAircraft>, cooldown_secs: u64) -> (r: Vec<usize>)
        requires
            old(self).wf(),
        ensures
            final(self).wf(),
            final(self).time() >= old(self).time(),
            final(self)@ == after_global(
                old(self)@,
                contact_views(hits@),
                nanos(cooldown_secs),
                final(self).time(),
            ),
            position_view(r@) == alerting(
                old(self)@.emergency,
                AlertClass::Emergency,
                contact_views(hits@),
                nanos(cooldown_secs),
                final(self).time(),
            ),
    {
        let now: u128 = self.clock.now();
        self.global_poll_at(hits, cooldown_secs, now)
    }

    /// `global_poll` with the time given.
    pub fn global_poll_at(
        &mut self,
        hits: &Vec<UiAircraft>,
        cooldown_secs: u64,
        now: u128,
    ) -> (r: Vec<usize>)
        requires
            old(self).wf(),
        ensures
            final(self).wf(),
            final(self).time() == old(self).time(),
            final(self)@ == after_global(
                old(self)@,
                contact_views(hits@),
                nanos(cooldown_secs),
                now,
            ),
            position_view(r@) == alerting(
                old(self)@.emergency,
                AlertClass::Emergency,
                contact_views(hits@),
                nanos(cooldown_secs),
                now,
            ),
    {
        let cooldown: u128 = cooldown_nanos(cooldown_secs);
        keep_latest(&mut self.latest, hits);
        let (fired, global): (Vec<usize>, Vec<String>) = observe_class(
            &mut self.emergency,
            AlertClass::Emergency,
            hits,
            cooldown,
            now,
        );
        let everywhere: Vec<String> = united(&global, &self.emerg_local);
        self.emergency.sweep_at(&everywhere, now);
        self.emerg_global = global;
        fired
    }

    /// The freshest contact with this address.
    pub fn latest(&self, hex: &str) -> (r: Option<&UiAircraft>)
        requires
            self.wf(),
        ensures
            (match r {
                Some(a) => self@.latest.contains_key(hex@) && self@.latest[hex@] == a@,
                None => !self@.latest.contains_key(hex@),
            }),
    {
        self.latest.get(hex)
    }
}

/// A number of seconds in nanoseconds.
pub open spec fn nanos(secs: u64) -> u128 {
    (secs * 1_000_000_000) as u128
}

fn cooldown_nanos(secs: u64) -> (r: u128)
    ensures
        r == nanos(secs),
{
    secs as u128 * 1_000_000_000
}

fn united(a: &Vec<String>, b: &Vec<String>) -> (r: Vec<String>)
    ensures
        texts_of(r@).to_set() == texts_of(a@).to_set() + texts_of(b@).to_set(),
{
    let mut r: Vec<String> = copy_texts(a);
    let mut more: Vec<String> = copy_texts(b);
    r.append(&mut more);
    proof {
        let (x, y, z) = (texts_of(a@), texts_of(b@), texts_of(r@));
        assert(z =~= x + y);
        assert forall|s: Seq<char>| z.to_set().contains(s) <==> (x.to_set() + y.to_set()).contains(
            s,
        ) by {
            if x.contains(s) {
                let i = choose|i: int| 0 <= i < x.len() && x[i] == s;
                assert(z[i] == s);
            }
            if y.contains(s) {
                let i = choose|i: int| 0 <= i < y.len() && y[i] == s;
                assert(z[x.len() + i] == s);
            }
        }
        assert(z.to_set() =~= x.to_set() + y.to_set());
    }
    r
}

fn keep_latest(latest: &mut Table<UiAircraft>, contacts: &Vec<UiAircraft>)
    requires
        old(latest).wf(),
    ensures
        final(latest).wf(),
        final(latest)@.map_values(|a: UiAircraft| a@) == refreshed(
            old(latest)@.map_values(|a: UiAircraft| a@),
            contact_views(contacts@),
        ),
{
    let ghost cs = contact_views(contacts@);
    let ghost start = latest@.map_values(|a: UiAircraft| a@);
    let n: usize = contacts.len();
    let mut i: usize = 0;
    while i < n
        invariant
            n == contacts@.len(),
            cs == contact_views(contacts@),
            i <= n,
            latest.wf(),
            latest@.map_values(|a: UiAircraft| a@) == refreshed(start, cs.take(i as int)),
        decreases n - i,
    {
        let ghost before = latest@.map_values(|a: UiAircraft| a@);
        assert(cs.take(i + 1).drop_last() == cs.take(i as int));
        assert(cs.take(i + 1).last() == contacts@[i as int]@);
        let c: UiAircraft = copy_contact(&contacts[i]);
        latest.set(contacts[i].hex.as_str(), c);
        assert(latest@.map_values(|a: UiAircraft| a@) =~= before.insert(c@.hex, c@));
        i += 1;
    }
    assert(cs.take(n as int) == cs);
}

fn announce(fire: &mut Vec<(AlertClass, usize)>, class: AlertClass, at: &Vec<usize>)
    ensures
        alert_views(final(fire)@) == alert_views(old(fire)@) + position_view(at@).map_values(
            |i: int| (class, i),
        ),
{
    let ghost start = alert_views(fire@);
    let ghost more = position_view(at@).map_values(|i: int| (class, i));
    let n: usize = at.len();
    let mut i: usize = 0;
    assert(start =~= start + more.take(0));
    while i < n
        invariant
            n == at@.len(),
            more == position_view(at@).map_values(|i: int| (class, i)),
            i <= n,
            alert_views(fire@) == start + more.take(i as int),
        decreases n - i,
    {
        let ghost before = alert_views(fire@);
        fire.push((class, at[i]));
        assert(alert_views(fire@) =~= before.push((class, at@[i as int] as int)));
        assert(alert_views(fire@) =~= start + more.take(i + 1));
        i += 1;
    }
    assert(more.take(n as int) =~= more);
}

/// A sweep over the emergency squawks: what the replies so far amount to.
pub struct SquawkSweep {
    hits: Vec<UiAircraft>,
    via: String,
}

impl SquawkSweep {
    /// No two contacts share an address.
    pub closed spec fn wf(&self) -> bool {
        one_each(contact_views(self.hits@))
    }

    /// The contacts so far.
    pub closed spec fn view(&self) -> Seq<Contact> {
        contact_views(self.hits@)
    }

    /// The feed that answered last.
    pub closed spec fn source(&self) -> Seq<char> {
        self.via@
    }

    /// A sweep that has not heard from any feed.
    pub fn new() -> (r: SquawkSweep)
        ensures
            r.wf(),
            r@ == Seq::<Contact>::empty(),
            r.source() == "global"@,
    {
        let r: SquawkSweep = SquawkSweep { hits: Vec::new(), via: "global".to_owned() };
        assert(contact_views(r.hits@) =~= Seq::empty());
        r
    }

    /// Takes in the reply for the squawk `sqk`, which came from `feed`.
    pub fn add_reply(
        &mut self,
        feed: &str,
        sqk: &str,
        records: &Vec<Aircraft>,
        measures: &Vec<Option<Measure>>,
        cfg: &Config,
    )
        requires
            old(self).wf(),
            measures@.len() == records@.len(),
        ensures
            final(self).wf(),
            final(self)@ == with_reply(old(self)@, sqk@, records@, measures@, *cfg),
            final(self).source() == feed@,
    {
        self.via = feed.to_owned();
        let ghost start = self@;
        let n: usize = records.len();
        let mut i: usize = 0;
        while i < n
            invariant
                n == records@.len(),
                n == measures@.len(),
                i <= n,
                self.wf(),
                self.via@ == feed@,
                self@ == with_reply(start, sqk@, records@.take(i as int), measures@, *cfg),
            decreases n - i,
        {
            assert(records@.take(i + 1).drop_last() == records@.take(i as int));
            if fresh_global(&records[i].seen) {
                let mut c: UiAircraft = classify(&records[i], cfg, &measures[i]);
                trust(&mut c, sqk);
                self.add_hit(c);
            }
            i += 1;
        }
        assert(records@.take(n as int) == records@);
    }

    fn add_hit(&mut self, c: UiAircraft)
        requires
            old(self).wf(),
        ensures
            final(self).wf(),
            final(self)@ == with_hit(old(self)@, c@),
            final(self).via == old(self).via,
    {
        let ghost hits = self@;
        let ghost view = c@;
        let n: usize = self.hits.len();
        let mut i: usize = 0;
        while i < n
            invariant
                n == self.hits@.len(),
                *self == *old(self),
                hits == contact_views(self.hits@),
                view == c@,
                one_each(hits),
                i <= n,
                forall|j: int| 0 <= j < i ==> !hit_at(hits, view.hex, j),
            decreases n - i,
        {
            if same_text(self.hits[i].hex.as_str(), c.hex.as_str()) {
                proof {
                    assert(hit_at(hits, view.hex, i as int));
                    let k = choose|k: int| hit_at(hits, view.hex, k);
                    assert(k == i);
                }
                self.hits.set(i, c);
                assert(contact_views(self.hits@) =~= hits.update(i as int, view));
                return;
            }
            assert(!hit_at(hits, view.hex, i as int));
            i += 1;
        }
        self.hits.push(c);
        assert(contact_views(self.hits@) =~= hits.push(view));
        assert(forall|j: int| 0 <= j < hits.len() ==> !#[trigger] hit_at(hits, view.hex, j));
        assert forall|a: int, b: int| 0 <= a < b < self@.len() implies #[trigger] self@[a].hex
            != #[trigger] self@[b].hex by {
            if b == hits.len() {
                assert(!hit_at(hits, view.hex, a));
            } else {
                assert(hits[a].hex != hits[b].hex);
            }
        }
    }

    /// The feed that answered last, "global" where none has.
    pub fn via(&self) -> (r: &str)
        ensures
            r@ == self.source(),
    {
        self.via.as_str()
    }

    /// The contacts that the replies amount to, each address once.
    pub fn hits(&self) -> (r: &Vec<UiAircraft>)
        requires
            self.wf(),
        ensures
            contact_views(r@) == self@,
            one_each(contact_views(r@)),
    {
        &self.hits
    }
}

/// Takes the endpoint's word for it that a contact wears the squawk.
fn trust(c: &mut UiAircraft, sqk: &str)
    ensures
        final(c)@ == trusted(old(c)@, sqk@),
{
    if !c.is_emergency && !surface(&c.category) {
        let ghost before = texts_of(c.reasons@);
        let reason: String = join("squawk:", sqk);
        c.is_emergency = true;
        c.reasons.push(reason);
        assert(texts_of(c.reasons@) =~= before.push(reason@));
    }
}

/// The log at a catch of `hex`: its freshest contact is recorded first, so that the row is
/// complete even where it is caught seconds after it appeared.
pub open spec fn log_at_catch(
    log: Option<Seq<Row>>,
    latest: Map<Seq<char>, Contact>,
    hex: Seq<char>,
    now: i64,
) -> Option<Seq<Row>> {
    if latest.contains_key(hex) {
        after_record(log, latest[hex], now)
    } else {
        log
    }
}

/// Promotes a contact into the dex at the current time: its freshest detail is recorded, then
/// its row is stamped. `Ok(true)` where this call is what caught it.
pub fn catch_contact(radar: &Radar, store: &mut Store, hex: &str) -> (r: Result<bool, String>)
    requires
        radar.wf(),
        old(store).wf(),
    ensures
        final(store).wf(),
        exists|now: i64|
            {
                &&& now >= 0
                &&& #[trigger] after_catch(
                    log_at_catch(old(store)@, radar@.latest, hex@, now),
                    hex@,
                    now,
                ) == final(store)@
                &&& match r {
                    Ok(b) => old(store)@ is Some && b == catchable(
                        log_at_catch(old(store)@, radar@.latest, hex@, now)->0,
                        hex@,
                    ),
                    Err(e) => old(store)@ is None && e@ == "sightings store unavailable"@,
                }
            },
{
    let now: i64 = now_secs();
    catch_contact_at(radar, store, hex, now)
}

/// `catch_contact` with the time given.
pub fn catch_contact_at(radar: &Radar, store: &mut Store, hex: &str, now: i64) -> (r: Result<
    bool,
    String,
>)
    requires
        radar.wf(),
        old(store).wf(),
    ensures
        final(store).wf(),
        final(store)@ == after_catch(
            log_at_catch(old(store)@, radar@.latest, hex@, now),
            hex@,
            now,
        ),
        (match r {
            Ok(b) => old(store)@ is Some && b == catchable(
                log_at_catch(old(store)@, radar@.latest, hex@, now)->0,
                hex@,
            ),
            Err(e) => old(store)@ is None && e@ == "sightings store unavailable"@,
        }),
{
    if let Some(a) = radar.latest(hex) {
        store.record_at(a, now);
    }
    store.catch_at(hex, now)
}

proof fn lemma_active_stays(
    latches: Map<Seq<char>, Latch>,
    class: AlertClass,
    cs: Seq<Contact>,
    cooldown: u128,
    now: u128,
    hex: Seq<char>,
)
    ensures
        members(class, cs).contains(hex) || (latches.contains_key(hex) && latches[hex].active)
            ==> observed_all(latches, class, cs, cooldown, now).contains_key(hex) && observed_all(
            latches,
            class,
            cs,
            cooldown,
            now,
        )[hex].active,
    decreases cs.len(),
{
    if cs.len() > 0 {
        lemma_active_stays(latches, class, cs.drop_last(), cooldown, now, hex);
        let less = members(class, cs.drop_last());
        if in_class(class, cs.last()) && members(class, cs).contains(hex) && cs.last().hex != hex {
            let all = members(class, cs);
            let i = choose|i: int| 0 <= i < all.len() && all[i] == hex;
            assert(less[i] == hex);
        }
    }
}

proof fn lemma_alerting_in_range(
    latches: Map<Seq<char>, Latch>,
    class: AlertClass,
    cs: Seq<Contact>,
    cooldown: u128,
    now: u128,
)
    ensures
        forall|a: int|
            0 <= a < alerting(latches, class, cs, cooldown, now).len() ==> {
                &&& 0 <= #[trigger] alerting(latches, class, cs, cooldown, now)[a] < cs.len()
                &&& in_class(class, cs[alerting(latches, class, cs, cooldown, now)[a]])
                &&& members(class, cs).contains(
                    cs[alerting(latches, class, cs, cooldown, now)[a]].hex,
                )
            },
    decreases cs.len(),
{
    if cs.len() > 0 {
        let less = cs.drop_last();
        lemma_alerting_in_range(latches, class, less, cooldown, now);
        let p = alerting(latches, class, cs, cooldown, now);
        let q = alerting(latches, class, less, cooldown, now);
        assert forall|a: int| 0 <= a < p.len() implies {
            &&& 0 <= #[trigger] p[a] < cs.len()
            &&& in_class(class, cs[p[a]])
            &&& members(class, cs).contains(cs[p[a]].hex)
        } by {
            let all = members(class, cs);
            if a < q.len() {
                assert(p[a] == q[a]);
                assert(members(class, less).contains(less[q[a]].hex));
                let i = choose|i: int|
                    0 <= i < members(class, less).len() && members(class, less)[i]
                        == less[q[a]].hex;
                assert(all[i] == cs[p[a]].hex);
            } else {
                assert(all[all.len() - 1] == cs.last().hex);
            }
        }
    }
}

/// An alert fires on entry only: a contact whose latch is active fires none.
pub proof fn standing_contacts_fire_no_alert(
    latches: Map<Seq<char>, Latch>,
    class: AlertClass,
    cs: Seq<Contact>,
    cooldown: u128,
    now: u128,
    hex: Seq<char>,
)
    requires
        latches.contains_key(hex),
        latches[hex].active,
    ensures
        forall|a: int|
            0 <= a < alerting(latches, class, cs, cooldown, now).len() ==> cs[#[trigger] alerting(
                latches,
                class,
                cs,
                cooldown,
                now,
            )[a]].hex != hex,
    decreases cs.len(),
{
    if cs.len() > 0 {
        let less = cs.drop_last();
        standing_contacts_fire_no_alert(latches, class, less, cooldown, now, hex);
        lemma_active_stays(latches, class, less, cooldown, now, hex);
        lemma_alerting_in_range(latches, class, less, cooldown, now);
        let p = alerting(latches, class, cs, cooldown, now);
        let q = alerting(latches, class, less, cooldown, now);
        assert forall|a: int| 0 <= a < p.len() implies cs[#[trigger] p[a]].hex != hex by {
            if a < q.len() {
                assert(p[a] == q[a]);
                assert(less[q[a]].hex != hex);
            }
        }
    }
}

/// One poll fires at most one alert of a class for a contact, and only for contacts in the
/// class.
pub proof fn one_alert_per_contact(
    latches: Map<Seq<char>, Latch>,
    class: AlertClass,
    cs: Seq<Contact>,
    cooldown: u128,
    now: u128,
)
    ensures
        forall|a: int|
            0 <= a < alerting(latches, class, cs, cooldown, now).len() ==> 0 <= #[trigger] alerting(
                latches,
                class,
                cs,
                cooldown,
                now,
            )[a] < cs.len() && in_class(class, cs[alerting(latches, class, cs, cooldown, now)[a]]),
        forall|a: int, b: int|
            0 <= a < b < alerting(latches, class, cs, cooldown, now).len()
                ==> cs[#[trigger] alerting(latches, class, cs, cooldown, now)[a]].hex
                != cs[#[trigger] alerting(latches, class, cs, cooldown, now)[b]].hex,
    decreases cs.len(),
{
    lemma_alerting_in_range(latches, class, cs, cooldown, now);
    if cs.len() > 0 {
        let less = cs.drop_last();
        one_alert_per_contact(latches, class, less, cooldown, now);
        lemma_alerting_in_range(latches, class, less, cooldown, now);
        let p = alerting(latches, class, cs, cooldown, now);
        let q = alerting(latches, class, less, cooldown, now);
        assert forall|a: int, b: int| 0 <= a < b < p.len() implies cs[#[trigger] p[a]].hex
            != cs[#[trigger] p[b]].hex by {
            assert(p[a] == q[a]);
            if b < q.len() {
                assert(p[b] == q[b]);
                assert(less[q[a]].hex != less[q[b]].hex);
            } else {
                assert(members(class, less).contains(less[q[a]].hex));
                lemma_active_stays(latches, class, less, cooldown, now, less[q[a]].hex);
            }
        }
    }
}

/// The two pollers do not clear each other's edges: an emergency that only the last sweep found
/// stays latched through local polls, and one that only the last local reply held stays latched
/// through sweeps. A sweep leaves the latches for interesting contacts alone.
pub proof fn pollers_keep_each_others_edges(
    scope: Scope,
    cs: Seq<Contact>,
    cooldown: u128,
    now: u128,
    hex: Seq<char>,
)
    requires
        scope.emergency.contains_key(hex),
        scope.emergency[hex].active,
    ensures
        scope.global.contains(hex) ==> after_local(scope, cs, cooldown, now).emergency.contains_key(
            hex,
        ) && after_local(scope, cs, cooldown, now).emergency[hex].active,
        scope.local.contains(hex) ==> after_global(scope, cs, cooldown, now).emergency.contains_key(
            hex,
        ) && after_global(scope, cs, cooldown, now).emergency[hex].active,
        after_global(scope, cs, cooldown, now).interesting == scope.interesting,
{
    lemma_active_stays(scope.emergency, AlertClass::Emergency, cs, cooldown, now, hex);
}

/// An emergency that both pollers see alerts once: after the poll that saw it first, the next
/// poll of the other kind fires no alert for it.
pub proof fn emergencies_alert_once_across_pollers(
    scope: Scope,
    cs: Seq<Contact>,
    cooldown: u128,
    now: u128,
    others: Seq<Contact>,
    later: u128,
    hex: Seq<char>,
)
    requires
        members(AlertClass::Emergency, cs).contains(hex),
    ensures
        ({
            let p = alerting(
                after_local(scope, cs, cooldown, now).emergency,
                AlertClass::Emergency,
                others,
                cooldown,
                later,
            );
            forall|a: int| 0 <= a < p.len() ==> others[#[trigger] p[a]].hex != hex
        }),
        ({
            let p = alerting(
                after_global(scope, cs, cooldown, now).emergency,
                AlertClass::Emergency,
                others,
                cooldown,
                later,
            );
            forall|a: int| 0 <= a < p.len() ==> others[#[trigger] p[a]].hex != hex
        }),
{
    lemma_active_stays(scope.emergency, AlertClass::Emergency, cs, cooldown, now, hex);
    standing_contacts_fire_no_alert(
        after_local(scope, cs, cooldown, now).emergency,
        AlertClass::Emergency,
        others,
        cooldown,
        later,
        hex,
    );
    standing_contacts_fire_no_alert(
        after_global(scope, cs, cooldown, now).emergency,
        AlertClass::Emergency,
        others,
        cooldown,
        later,
        hex,
    );
}

/// The endpoint of a squawk is trusted for aircraft, and for them alone: each is an emergency,
/// and a surface vehicle or a fixed obstruction never is.
pub proof fn endpoints_are_trusted_for_aircraft(
    ac: Aircraft,
    cfg: Config,
    measure: Option<Measure>,
    sqk: Seq<char>,
)
    ensures
        trusted(classified(ac, cfg, measure), sqk).is_emergency == !is_surface(text_of(ac.category)),
        trusted(classified(ac, cfg, measure), sqk).hex == ac.hex@,
{
}

/// The survey lists every contact once, and never a farther one before a nearer one.
pub proof fn survey_is_nearest_first(cs: Seq<Contact>)
    ensures
        nearest_first(cs).len() == cs.len(),
        forall|k: int| 0 <= k < cs.len() ==> nearest_first(cs).contains(#[trigger] cs[k]),
        forall|a: int, b: int|
            0 <= a < b < cs.len() ==> distance_key(#[trigger] nearest_first(cs)[a]) <= distance_key(
                #[trigger] nearest_first(cs)[b],
            ),
{
    let keys = cs.map_values(|c: Contact| distance_key(c));
    let p = ranking(keys);
    stable_order_exists(keys);
    lemma_ranking_len(keys, p);
    let near = nearest_first(cs);
    assert forall|k: int| 0 <= k < cs.len() implies near.contains(#[trigger] cs[k]) by {
        assert(p.contains(k));
        let i = choose|i: int| 0 <= i < p.len() && p[i] == k;
        assert(near[i] == cs[k]);
    }
    assert forall|a: int, b: int| 0 <= a < b < cs.len() implies distance_key(#[trigger] near[a])
        <= distance_key(#[trigger] near[b]) by {
        assert(before(keys, p[a], p[b]));
    }
}

proof fn lemma_refreshed(latest: Map<Seq<char>, Contact>, cs: Seq<Contact>, i: int)
    requires
        0 <= i < cs.len(),
    ensures
        refreshed(latest, cs).contains_key(cs[i].hex),
        refreshed(latest, cs)[cs[i].hex].hex == cs[i].hex,
    decreases cs.len(),
{
    if i < cs.len() - 1 {
        lemma_refreshed(latest, cs.drop_last(), i);
        assert(cs.drop_last()[i] == cs[i]);
    }
}

/// Every contact that a poll brought in can be caught: its address is in the dex after the
/// catch, and the catch is what put it there unless it was there before.
pub proof fn heard_contacts_can_be_caught(
    scope: Scope,
    cs: Seq<Contact>,
    cooldown: u128,
    heard: u128,
    i: int,
    log: Seq<Row>,
    now: i64,
)
    requires
        keyed(log),
        0 <= i < cs.len(),
        cs[i].hex.len() > 0,
    ensures
        ({
            let hex = cs[i].hex;
            let at_local = log_at_catch(
                Some(log),
                after_local(scope, cs, cooldown, heard).latest,
                hex,
                now,
            );
            let at_global = log_at_catch(
                Some(log),
                after_global(scope, cs, cooldown, heard).latest,
                hex,
                now,
            );
            &&& at_local matches Some(l) && in_dex(after_catch(at_local, hex, now)->0, hex)
                && (catchable(l, hex) <==> !in_dex(log, hex))
            &&& at_global matches Some(l) && in_dex(after_catch(at_global, hex, now)->0, hex)
                && (catchable(l, hex) <==> !in_dex(log, hex))
        }),
{
    lemma_refreshed(Map::empty(), cs, i);
    lemma_refreshed(scope.latest, cs, i);
    recorded_contact_can_be_caught(
        log,
        after_local(scope, cs, cooldown, heard).latest[cs[i].hex],
        now,
        now,
    );
    recorded_contact_can_be_caught(
        log,
        after_global(scope, cs, cooldown, heard).latest[cs[i].hex],
        now,
        now,
    );
}

/// One poll as it bears on the latches of one class: the contacts that were observed, and the
/// addresses that the latches were swept against.
pub ghost struct Pass {
    pub seen: Seq<Contact>,
    pub present: Set<Seq<char>>,
    pub now: u128,
}

impl Pass {
    /// The latches after the poll.
    pub open spec fn apply(
        self,
        latches: Map<Seq<char>, Latch>,
        class: AlertClass,
        cooldown: u128,
    ) -> Map<Seq<char>, Latch> {
        swept(
            observed_all(latches, class, self.seen, cooldown, self.now),
            self.present,
            self.now,
        )
    }

    /// Every contact that was observed in the class counts as present.
    pub open spec fn complete(self, class: AlertClass) -> bool {
        forall|hex: Seq<char>| #[trigger]
            members(class, self.seen).contains(hex) ==> self.present.contains(hex)
    }

    /// The poll fires an alert for `hex`.
    pub open spec fn alerts(
        self,
        latches: Map<Seq<char>, Latch>,
        class: AlertClass,
        cooldown: u128,
        hex: Seq<char>,
    ) -> bool {
        exists|a: int|
            {
                &&& 0 <= a < alerting(latches, class, self.seen, cooldown, self.now).len()
                &&& self.seen[#[trigger] alerting(
                    latches,
                    class,
                    self.seen,
                    cooldown,
                    self.now,
                )[a]].hex == hex
            }
    }
}

/// The latches of a class after the first `n` polls, starting with nothing remembered.
pub open spec fn latches_after_polls(
    history: Seq<Pass>,
    class: AlertClass,
    cooldown: u128,
    n: int,
) -> Map<Seq<char>, Latch>
    decreases n,
{
    if n <= 0 {
        Map::empty()
    } else {
        history[n - 1].apply(
            latches_after_polls(history, class, cooldown, n - 1),
            class,
            cooldown,
        )
    }
}

/// Times never run backwards, and every poll counts what it observed as present.
pub open spec fn regular(history: Seq<Pass>, class: AlertClass) -> bool {
    &&& forall|i: int, j: int|
        0 <= i <= j < history.len() ==> #[trigger] history[i].now <= #[trigger] history[j].now
    &&& forall|i: int| 0 <= i < history.len() ==> (#[trigger] history[i]).complete(class)
}

/// A poll between the two positions found `hex` gone.
pub open spec fn gone_between(history: Seq<Pass>, i: int, j: int, hex: Seq<char>) -> bool {
    exists|k: int| i < k < j && !(#[trigger] history[k]).present.contains(hex)
}

proof fn lemma_fired_marks(
    latches: Map<Seq<char>, Latch>,
    class: AlertClass,
    cs: Seq<Contact>,
    cooldown: u128,
    now: u128,
    a: int,
)
    requires
        0 <= a < alerting(latches, class, cs, cooldown, now).len(),
    ensures
        ({
            let hex = cs[alerting(latches, class, cs, cooldown, now)[a]].hex;
            let after = observed_all(latches, class, cs, cooldown, now);
            &&& members(class, cs).contains(hex)
            &&& after.contains_key(hex)
            &&& after[hex].active
            &&& after[hex].last_fired == Some(now)
            &&& after[hex].cooldown == cooldown
        }),
    decreases cs.len(),
{
    lemma_alerting_in_range(latches, class, cs, cooldown, now);
    if cs.len() > 0 {
        let less = cs.drop_last();
        let p = alerting(latches, class, cs, cooldown, now);
        let q = alerting(latches, class, less, cooldown, now);
        lemma_alerting_in_range(latches, class, less, cooldown, now);
        if a < q.len() {
            lemma_fired_marks(latches, class, less, cooldown, now, a);
            assert(p[a] == q[a]);
            assert(cs[p[a]] == less[q[a]]);
        }
    }
}

proof fn lemma_cooling_holds(
    latches: Map<Seq<char>, Latch>,
    class: AlertClass,
    cs: Seq<Contact>,
    cooldown: u128,
    now: u128,
    hex: Seq<char>,
    fired_at: u128,
)
    requires
        latches.contains_key(hex),
        latches[hex].last_fired == Some(fired_at),
        latches[hex].cooldown == cooldown,
        fired_at <= now,
        now - fired_at < cooldown,
    ensures
        observed_all(latches, class, cs, cooldown, now).contains_key(hex),
        observed_all(latches, class, cs, cooldown, now)[hex].last_fired == Some(fired_at),
        observed_all(latches, class, cs, cooldown, now)[hex].cooldown == cooldown,
        forall|a: int|
            0 <= a < alerting(latches, class, cs, cooldown, now).len() ==> cs[#[trigger] alerting(
                latches,
                class,
                cs,
                cooldown,
                now,
            )[a]].hex != hex,
    decreases cs.len(),
{
    if cs.len() > 0 {
        let less = cs.drop_last();
        lemma_cooling_holds(latches, class, less, cooldown, now, hex, fired_at);
        lemma_alerting_in_range(latches, class, less, cooldown, now);
        let p = alerting(latches, class, cs, cooldown, now);
        let q = alerting(latches, class, less, cooldown, now);
        assert forall|a: int| 0 <= a < p.len() implies cs[#[trigger] p[a]].hex != hex by {
            if a < q.len() {
                assert(p[a] == q[a]);
                assert(less[q[a]].hex != hex);
            }
        }
    }
}

proof fn lemma_poll_latch_holds(
    history: Seq<Pass>,
    class: AlertClass,
    cooldown: u128,
    hex: Seq<char>,
    i: int,
    n: int,
)
    requires
        regular(history, class),
        0 <= i < n <= history.len(),
        history[i].alerts(latches_after_polls(history, class, cooldown, i), class, cooldown, hex),
    ensures
        gone_between(history, i, n, hex) || (latches_after_polls(
            history,
            class,
            cooldown,
            n,
        ).contains_key(hex) && latches_after_polls(history, class, cooldown, n)[hex].active),
        history[n - 1].now - history[i].now >= cooldown || ({
            let after = latches_after_polls(history, class, cooldown, n);
            after.contains_key(hex) && after[hex].last_fired == Some(history[i].now)
                && after[hex].cooldown == cooldown
        }),
    decreases n,
{
    let before = latches_after_polls(history, class, cooldown, n - 1);
    let pass = history[n - 1];
    assert(pass.complete(class));
    if n == i + 1 {
        let a = choose|a: int|
            {
                &&& 0 <= a < alerting(before, class, pass.seen, cooldown, pass.now).len()
                &&& pass.seen[#[trigger] alerting(
                    before,
                    class,
                    pass.seen,
                    cooldown,
                    pass.now,
                )[a]].hex == hex
            };
        lemma_fired_marks(before, class, pass.seen, cooldown, pass.now, a);
        assert(pass.present.contains(hex));
    } else {
        lemma_poll_latch_holds(history, class, cooldown, hex, i, n - 1);
        assert(history[i].now <= history[n - 2].now);
        assert(history[n - 2].now <= history[n - 1].now);
        if gone_between(history, i, n - 1, hex) {
            let k = choose|k: int|
                i < k < n - 1 && !(#[trigger] history[k]).present.contains(hex);
            assert(gone_between(history, i, n, hex));
        } else {
            lemma_active_stays(before, class, pass.seen, cooldown, pass.now, hex);
            if !pass.present.contains(hex) {
                assert(i < n - 1 < n && !history[n - 1].present.contains(hex));
                assert(gone_between(history, i, n, hex));
            }
        }
        if history[n - 1].now - history[i].now < cooldown {
            lemma_cooling_holds(
                before,
                class,
                pass.seen,
                cooldown,
                pass.now,
                hex,
                history[i].now,
            );
        }
    }
}

/// Alerts are edge-triggered: between two polls that alert for one contact, a poll found it gone
/// and at least the cooldown went by.
pub proof fn polls_alert_once_per_entry(
    history: Seq<Pass>,
    class: AlertClass,
    cooldown: u128,
    hex: Seq<char>,
    i: int,
    j: int,
)
    requires
        regular(history, class),
        0 <= i < j < history.len(),
        history[i].alerts(latches_after_polls(history, class, cooldown, i), class, cooldown, hex),
        history[j].alerts(latches_after_polls(history, class, cooldown, j), class, cooldown, hex),
    ensures
        history[j].now - history[i].now >= cooldown,
        gone_between(history, i, j, hex),
{
    lemma_poll_latch_holds(history, class, cooldown, hex, i, j);
    let before = latches_after_polls(history, class, cooldown, j);
    let pass = history[j];
    assert(history[j - 1].now <= history[j].now);
    assert(history[i].now <= history[j].now);
    if !gone_between(history, i, j, hex) {
        standing_contacts_fire_no_alert(before, class, pass.seen, cooldown, pass.now, hex);
    }
    if history[j].now - history[i].now < cooldown {
        lemma_cooling_holds(before, class, pass.seen, cooldown, pass.now, hex, history[i].now);
    }
}

/// Both pollers act on the latches in this way: a local reply on those for interesting contacts
/// and on those for emergencies, a sweep on those for emergencies alone.
pub proof fn polls_are_passes(scope: Scope, cs: Seq<Contact>, cooldown: u128, now: u128)
    ensures
        ({
            let pass = Pass {
                seen: cs,
                present: members(AlertClass::Interesting, cs).to_set(),
                now,
            };
            &&& pass.complete(AlertClass::Interesting)
            &&& after_local(scope, cs, cooldown, now).interesting == pass.apply(
                scope.interesting,
                AlertClass::Interesting,
                cooldown,
            )
        }),
        ({
            let pass = Pass {
                seen: cs,
                present: members(AlertClass::Emergency, cs).to_set() + scope.global,
                now,
            };
            &&& pass.complete(AlertClass::Emergency)
            &&& after_local(scope, cs, cooldown, now).emergency == pass.apply(
                scope.emergency,
                AlertClass::Emergency,
                cooldown,
            )
        }),
        ({
            let pass = Pass {
                seen: cs,
                present: members(AlertClass::Emergency, cs).to_set() + scope.local,
                now,
            };
            &&& pass.complete(AlertClass::Emergency)
            &&& after_global(scope, cs, cooldown, now).emergency == pass.apply(
                scope.emergency,
                AlertClass::Emergency,
                cooldown,
            )
        }),
{
}

proof fn lemma_members(class: AlertClass, cs: Seq<Contact>, hex: Seq<char>)
    ensures
        members(class, cs).contains(hex) <==> exists|k: int|
            0 <= k < cs.len() && in_class(class, #[trigger] cs[k]) && cs[k].hex == hex,
    decreases cs.len(),
{
    if cs.len() > 0 {
        let less = cs.drop_last();
        let last = cs.len() - 1;
        lemma_members(class, less, hex);
        let (a, b) = (members(class, cs), members(class, less));
        if b.contains(hex) {
            let i = choose|i: int| 0 <= i < b.len() && b[i] == hex;
            assert(a[i] == hex);
            let k = choose|k: int|
                0 <= k < less.len() && in_class(class, #[trigger] less[k]) && less[k].hex == hex;
            assert(in_class(class, cs[k]) && cs[k].hex == hex);
        }
        if in_class(class, cs[last]) && cs[last].hex == hex {
            assert(a[b.len() as int] == hex);
        }
        if a.contains(hex) && !b.contains(hex) {
            let i = choose|i: int| 0 <= i < a.len() && a[i] == hex;
            if i < b.len() {
                assert(b[i] == hex);
            }
            assert(in_class(class, cs[last]) && cs[last].hex == hex);
        }
        if exists|k: int| 0 <= k < cs.len() && in_class(class, #[trigger] cs[k]) && cs[k].hex == hex {
            let k = choose|k: int|
                0 <= k < cs.len() && in_class(class, #[trigger] cs[k]) && cs[k].hex == hex;
            if k < last {
                assert(in_class(class, less[k]) && less[k].hex == hex);
            }
        }
    }
}

proof fn lemma_untouched(
    latches: Map<Seq<char>, Latch>,
    class: AlertClass,
    cs: Seq<Contact>,
    cooldown: u128,
    now: u128,
    hex: Seq<char>,
)
    requires
        forall|k: int| 0 <= k < cs.len() && in_class(class, #[trigger] cs[k]) ==> cs[k].hex != hex,
    ensures
        observed_all(latches, class, cs, cooldown, now).contains_key(hex) == latches.contains_key(hex),
        latches.contains_key(hex) ==> observed_all(latches, class, cs, cooldown, now)[hex]
            == latches[hex],
    decreases cs.len(),
{
    if cs.len() > 0 {
        let less = cs.drop_last();
        assert forall|k: int| 0 <= k < less.len() && in_class(class, #[trigger] less[k]) implies
            less[k].hex != hex by {
            assert(cs[k] == less[k]);
        }
        lemma_untouched(latches, class, less, cooldown, now, hex);
        assert(in_class(class, cs[cs.len() - 1]) ==> cs[cs.len() - 1].hex != hex);
    }
}

/// No contact before position `i` is in the class and shares its address.
spec fn leads(class: AlertClass, cs: Seq<Contact>, i: int) -> bool {
    forall|k: int| 0 <= k < i && in_class(class, #[trigger] cs[k]) ==> cs[k].hex != cs[i].hex
}

proof fn lemma_alerting(
    latches: Map<Seq<char>, Latch>,
    class: AlertClass,
    cs: Seq<Contact>,
    cooldown: u128,
    now: u128,
    i: int,
)
    ensures
        alerting(latches, class, cs, cooldown, now).contains(i) <==> (0 <= i < cs.len() && in_class(
            class,
            cs[i],
        ) && leads(class, cs, i) && fires(latches, cs[i].hex, cooldown, now)),
    decreases cs.len(),
{
    lemma_alerting_in_range(latches, class, cs, cooldown, now);
    let p = alerting(latches, class, cs, cooldown, now);
    if cs.len() > 0 && 0 <= i < cs.len() {
        let less = cs.drop_last();
        let q = alerting(latches, class, less, cooldown, now);
        lemma_alerting_in_range(latches, class, less, cooldown, now);
        if i < less.len() {
            lemma_alerting(latches, class, less, cooldown, now, i);
            assert(less[i] == cs[i]);
            assert(leads(class, less, i) == leads(class, cs, i)) by {
                assert forall|k: int| 0 <= k < i implies #[trigger] less[k] == cs[k] by {}
                if leads(class, less, i) {
                    assert forall|k: int| 0 <= k < i && in_class(class, #[trigger] cs[k]) implies
                        cs[k].hex != cs[i].hex by {
                        assert(in_class(class, less[k]));
                    }
                }
                if leads(class, cs, i) {
                    assert forall|k: int| 0 <= k < i && in_class(class, #[trigger] less[k]) implies
                        less[k].hex != less[i].hex by {
                        assert(in_class(class, cs[k]));
                    }
                }
            }
            if q.contains(i) {
                let a = choose|a: int| 0 <= a < q.len() && q[a] == i;
                assert(p[a] == i);
            }
            if p.contains(i) {
                let a = choose|a: int| 0 <= a < p.len() && p[a] == i;
                assert(q[a] == i);
            }
        } else {
            let hex = cs[i].hex;
            if leads(class, cs, i) {
                assert forall|k: int| 0 <= k < less.len() && in_class(class, #[trigger] less[k])
                    implies less[k].hex != hex by {
                    assert(in_class(class, cs[k]));
                }
                lemma_untouched(latches, class, less, cooldown, now, hex);
            } else {
                let k = choose|k: int|
                    0 <= k < i && in_class(class, #[trigger] cs[k]) && cs[k].hex == hex;
                assert(in_class(class, less[k]) && less[k].hex == hex);
                lemma_members(class, less, hex);
                lemma_active_stays(latches, class, less, cooldown, now, hex);
            }
            if p.contains(i) {
                let a = choose|a: int| 0 <= a < p.len() && p[a] == i;
                if a < q.len() {
                    assert(q[a] < less.len());
                }
            }
            if p.len() > q.len() {
                assert(p[q.len() as int] == i);
            }
        }
    } else if p.contains(i) {
        let a = choose|a: int| 0 <= a < p.len() && p[a] == i;
        assert(0 <= p[a] < cs.len());
    }
}

proof fn lemma_alerting_ascends(
    latches: Map<Seq<char>, Latch>,
    class: AlertClass,
    cs: Seq<Contact>,
    cooldown: u128,
    now: u128,
)
    ensures
        forall|a: int, b: int|
            0 <= a < b < alerting(latches, class, cs, cooldown, now).len() ==> #[trigger] alerting(
                latches,
                class,
                cs,
                cooldown,
                now,
            )[a] < #[trigger] alerting(latches, class, cs, cooldown, now)[b],
    decreases cs.len(),
{
    if cs.len() > 0 {
        let less = cs.drop_last();
        lemma_alerting_ascends(latches, class, less, cooldown, now);
        lemma_alerting_in_range(latches, class, less, cooldown, now);
        let p = alerting(latches, class, cs, cooldown, now);
        let q = alerting(latches, class, less, cooldown, now);
        assert forall|a: int, b: int| 0 <= a < b < p.len() implies #[trigger] p[a]
            < #[trigger] p[b] by {
            assert(p[a] == q[a]);
            if b < q.len() {
                assert(p[b] == q[b]);
            }
        }
    }
}

/// No alert is held back by what is remembered of `hex`: nothing is, or it left since, and the
/// cooldown since its last alert went by.
pub open spec fn unlatched(
    latches: Map<Seq<char>, Latch>,
    hex: Seq<char>,
    cooldown: u128,
    now: u128,
) -> bool {
    latches.contains_key(hex) ==> !latches[hex].active && (latches[hex].last_fired is None
        || cooldown == 0 || now >= latches[hex].last_fired->0 + cooldown)
}

/// A local reply alerts for a contact exactly where it is overhead or interesting, is the first
/// such contact with its address in the reply, and nothing that is remembered holds the alert
/// back; and for an emergency likewise. A radar that remembers nothing holds no alert back.
pub proof fn local_replies_alert_for_each_entry(
    scope: Scope,
    cs: Seq<Contact>,
    cooldown: u128,
    now: u128,
    i: int,
)
    ensures
        local_alerts(scope, cs, cooldown, now).contains((AlertClass::Interesting, i)) <==> {
            &&& 0 <= i < cs.len()
            &&& cs[i].overhead || cs[i].interesting
            &&& forall|k: int|
                0 <= k < i && ((#[trigger] cs[k]).overhead || cs[k].interesting) ==> cs[k].hex
                    != cs[i].hex
            &&& unlatched(scope.interesting, cs[i].hex, cooldown, now)
        },
        local_alerts(scope, cs, cooldown, now).contains((AlertClass::Emergency, i)) <==> {
            &&& 0 <= i < cs.len()
            &&& cs[i].is_emergency
            &&& forall|k: int|
                0 <= k < i && (#[trigger] cs[k]).is_emergency ==> cs[k].hex != cs[i].hex
            &&& unlatched(scope.emergency, cs[i].hex, cooldown, now)
        },
{
    lemma_alerting(scope.interesting, AlertClass::Interesting, cs, cooldown, now, i);
    lemma_alerting(scope.emergency, AlertClass::Emergency, cs, cooldown, now, i);
    let p = alerting(scope.interesting, AlertClass::Interesting, cs, cooldown, now);
    let q = alerting(scope.emergency, AlertClass::Emergency, cs, cooldown, now);
    let all = local_alerts(scope, cs, cooldown, now);
    if p.contains(i) {
        let a = choose|a: int| 0 <= a < p.len() && p[a] == i;
        assert(all[a] == (AlertClass::Interesting, i));
    }
    if q.contains(i) {
        let a = choose|a: int| 0 <= a < q.len() && q[a] == i;
        assert(all[p.len() + a] == (AlertClass::Emergency, i));
    }
    if all.contains((AlertClass::Interesting, i)) {
        let a = choose|a: int| 0 <= a < all.len() && all[a] == (AlertClass::Interesting, i);
        assert(a < p.len());
        assert(p[a] == i);
    }
    if all.contains((AlertClass::Emergency, i)) {
        let a = choose|a: int| 0 <= a < all.len() && all[a] == (AlertClass::Emergency, i);
        assert(a >= p.len());
        assert(q[a - p.len()] == i);
    }
    if 0 <= i < cs.len() {
        assert(leads(AlertClass::Interesting, cs, i) <==> (forall|k: int|
            0 <= k < i && ((#[trigger] cs[k]).overhead || cs[k].interesting) ==> cs[k].hex
                != cs[i].hex)) by {
            if leads(AlertClass::Interesting, cs, i) {
                assert forall|k: int|
                    0 <= k < i && ((#[trigger] cs[k]).overhead || cs[k].interesting) implies cs[k].hex
                    != cs[i].hex by {
                    assert(in_class(AlertClass::Interesting, cs[k]));
                }
            }
        }
        assert(leads(AlertClass::Emergency, cs, i) <==> (forall|k: int|
            0 <= k < i && (#[trigger] cs[k]).is_emergency ==> cs[k].hex != cs[i].hex)) by {
            if leads(AlertClass::Emergency, cs, i) {
                assert forall|k: int| 0 <= k < i && (#[trigger] cs[k]).is_emergency implies cs[k].hex
                    != cs[i].hex by {
                    assert(in_class(AlertClass::Emergency, cs[k]));
                }
            }
        }
    }
}

/// From a radar that remembers nothing, a local reply fires an alert for the address of every
/// contact that is overhead, for that of every one that is interesting, and for that of every
/// emergency, each once.
pub proof fn new_radars_alert_for_every_contact_of_note(
    scope: Scope,
    cs: Seq<Contact>,
    cooldown: u128,
    now: u128,
    i: int,
)
    requires
        scope.interesting == Map::<Seq<char>, Latch>::empty(),
        scope.emergency == Map::<Seq<char>, Latch>::empty(),
        0 <= i < cs.len(),
    ensures
        ({
            let all = local_alerts(scope, cs, cooldown, now);
            &&& cs[i].overhead || cs[i].interesting ==> exists|a: int|
                0 <= a < all.len() && (#[trigger] all[a]).0 is Interesting && cs[all[a].1].hex
                    == cs[i].hex
            &&& cs[i].is_emergency ==> exists|a: int|
                0 <= a < all.len() && (#[trigger] all[a]).0 is Emergency && cs[all[a].1].hex
                    == cs[i].hex
            &&& forall|a: int, b: int|
                0 <= a < b < all.len() && (#[trigger] all[a]).0 == (#[trigger] all[b]).0
                    ==> cs[all[a].1].hex != cs[all[b].1].hex
        }),
{
    let all = local_alerts(scope, cs, cooldown, now);
    let hex = cs[i].hex;
    if cs[i].overhead || cs[i].interesting {
        let k = lemma_first(AlertClass::Interesting, cs, i);
        local_replies_alert_for_each_entry(scope, cs, cooldown, now, k);
        assert(forall|m: int|
            0 <= m < k && ((#[trigger] cs[m]).overhead || cs[m].interesting) ==> cs[m].hex
                != cs[k].hex) by {
            assert forall|m: int|
                0 <= m < k && ((#[trigger] cs[m]).overhead || cs[m].interesting) implies cs[m].hex
                != cs[k].hex by {
                assert(in_class(AlertClass::Interesting, cs[m]));
            }
        }
        let a = choose|a: int| 0 <= a < all.len() && all[a] == (AlertClass::Interesting, k);
        assert(all[a].0 is Interesting && cs[all[a].1].hex == hex);
    }
    if cs[i].is_emergency {
        let k = lemma_first(AlertClass::Emergency, cs, i);
        local_replies_alert_for_each_entry(scope, cs, cooldown, now, k);
        assert(forall|m: int| 0 <= m < k && (#[trigger] cs[m]).is_emergency ==> cs[m].hex
            != cs[k].hex) by {
            assert forall|m: int| 0 <= m < k && (#[trigger] cs[m]).is_emergency implies cs[m].hex
                != cs[k].hex by {
                assert(in_class(AlertClass::Emergency, cs[m]));
            }
        }
        let a = choose|a: int| 0 <= a < all.len() && all[a] == (AlertClass::Emergency, k);
        assert(all[a].0 is Emergency && cs[all[a].1].hex == hex);
    }
    one_alert_per_contact(scope.interesting, AlertClass::Interesting, cs, cooldown, now);
    one_alert_per_contact(scope.emergency, AlertClass::Emergency, cs, cooldown, now);
    let p = alerting(scope.interesting, AlertClass::Interesting, cs, cooldown, now);
    let q = alerting(scope.emergency, AlertClass::Emergency, cs, cooldown, now);
    assert forall|a: int, b: int|
        0 <= a < b < all.len() && (#[trigger] all[a]).0 == (#[trigger] all[b]).0 implies cs[all[a].1].hex
        != cs[all[b].1].hex by {
        if b < p.len() {
            assert(all[a].1 == p[a] && all[b].1 == p[b]);
        } else {
            assert(a >= p.len());
            assert(all[a].1 == q[a - p.len()] && all[b].1 == q[b - p.len()]);
        }
    }
}

proof fn lemma_first(class: AlertClass, cs: Seq<Contact>, i: int) -> (k: int)
    requires
        0 <= i < cs.len(),
        in_class(class, cs[i]),
    ensures
        0 <= k <= i,
        in_class(class, cs[k]),
        cs[k].hex == cs[i].hex,
        leads(class, cs, k),
    decreases i,
{
    if leads(class, cs, i) {
        i
    } else {
        let m = choose|m: int|
            0 <= m < i && in_class(class, #[trigger] cs[m]) && cs[m].hex == cs[i].hex;
        lemma_first(class, cs, m)
    }
}

/// The alerts of a local reply come in order: those for interesting contacts first, and those of
/// one kind in the order of the reply.
pub proof fn alerts_come_in_order(scope: Scope, cs: Seq<Contact>, cooldown: u128, now: u128)
    ensures
        ({
            let all = local_alerts(scope, cs, cooldown, now);
            forall|a: int, b: int|
                0 <= a < b < all.len() ==> ((#[trigger] all[a]).0 is Emergency ==> (
                #[trigger] all[b]).0 is Emergency) && (all[a].0 == all[b].0 ==> all[a].1 < all[b].1)
        }),
{
    lemma_alerting_ascends(scope.interesting, AlertClass::Interesting, cs, cooldown, now);
    lemma_alerting_ascends(scope.emergency, AlertClass::Emergency, cs, cooldown, now);
    let p = alerting(scope.interesting, AlertClass::Interesting, cs, cooldown, now);
    let q = alerting(scope.emergency, AlertClass::Emergency, cs, cooldown, now);
    let all = local_alerts(scope, cs, cooldown, now);
    assert forall|a: int, b: int| 0 <= a < b < all.len() implies ((
    #[trigger] all[a]).0 is Emergency ==> (#[trigger] all[b]).0 is Emergency) && (all[a].0
        == all[b].0 ==> all[a].1 < all[b].1) by {
        if b < p.len() {
            assert(all[a].1 == p[a] && all[b].1 == p[b]);
        } else if a >= p.len() {
            assert(all[a].1 == q[a - p.len()] && all[b].1 == q[b - p.len()]);
        }
    }
}

/// A sweep alerts for a contact exactly where it is an emergency, is the first one with its
/// address, and nothing that is remembered of emergencies holds the alert back.
pub proof fn sweeps_alert_for_each_emergency(
    scope: Scope,
    hits: Seq<Contact>,
    cooldown: u128,
    now: u128,
    i: int,
)
    ensures
        alerting(scope.emergency, AlertClass::Emergency, hits, cooldown, now).contains(i) <==> {
            &&& 0 <= i < hits.len()
            &&& hits[i].is_emergency
            &&& forall|k: int|
                0 <= k < i && (#[trigger] hits[k]).is_emergency ==> hits[k].hex != hits[i].hex
            &&& unlatched(scope.emergency, hits[i].hex, cooldown, now)
        },
{
    lemma_alerting(scope.emergency, AlertClass::Emergency, hits, cooldown, now, i);
    if 0 <= i < hits.len() {
        assert(leads(AlertClass::Emergency, hits, i) <==> (forall|k: int|
            0 <= k < i && (#[trigger] hits[k]).is_emergency ==> hits[k].hex != hits[i].hex)) by {
            if leads(AlertClass::Emergency, hits, i) {
                assert forall|k: int| 0 <= k < i && (#[trigger] hits[k]).is_emergency implies hits[k].hex
                    != hits[i].hex by {
                    assert(in_class(AlertClass::Emergency, hits[k]));
                }
            }
        }
    }
}

/// The list of events holds a position exactly where the contact there is overhead, interesting
/// or an emergency, and that of emergencies exactly where it is one; both ascend.
pub proof fn events_are_the_contacts_of_note(cs: Seq<Contact>)
    ensures
        forall|i: int| #[trigger]
            noteworthy(cs).contains(i) <==> 0 <= i < cs.len() && (cs[i].overhead
                || cs[i].interesting || cs[i].is_emergency),
        forall|a: int, b: int|
            0 <= a < b < noteworthy(cs).len() ==> #[trigger] noteworthy(cs)[a]
                < #[trigger] noteworthy(cs)[b],
        forall|i: int| #[trigger]
            positions(AlertClass::Emergency, cs).contains(i) <==> 0 <= i < cs.len()
                && cs[i].is_emergency,
        forall|a: int, b: int|
            0 <= a < b < positions(AlertClass::Emergency, cs).len() ==> #[trigger] positions(
                AlertClass::Emergency,
                cs,
            )[a] < #[trigger] positions(AlertClass::Emergency, cs)[b],
    decreases cs.len(),
{
    if cs.len() > 0 {
        let less = cs.drop_last();
        let last = cs.len() - 1;
        events_are_the_contacts_of_note(less);
        let (a, b) = (noteworthy(cs), noteworthy(less));
        let (c, d) = (
            positions(AlertClass::Emergency, cs),
            positions(AlertClass::Emergency, less),
        );
        assert forall|i: int| #[trigger] a.contains(i) <==> 0 <= i < cs.len() && (cs[i].overhead
            || cs[i].interesting || cs[i].is_emergency) by {
            assert(b.contains(i) <==> 0 <= i < less.len() && (less[i].overhead
                || less[i].interesting || less[i].is_emergency));
            lemma_grown(a, b, last, i);
        }
        assert forall|i: int| #[trigger] c.contains(i) <==> 0 <= i < cs.len() && cs[i].is_emergency by {
            assert(d.contains(i) <==> 0 <= i < less.len() && less[i].is_emergency);
            lemma_grown(c, d, last, i);
        }
        assert forall|x: int, y: int| 0 <= x < y < a.len() implies #[trigger] a[x]
            < #[trigger] a[y] by {
            assert(a[x] == b[x]);
            assert(b.contains(b[x]));
            if y < b.len() {
                assert(a[y] == b[y]);
            }
        }
        assert forall|x: int, y: int| 0 <= x < y < c.len() implies #[trigger] c[x]
            < #[trigger] c[y] by {
            assert(c[x] == d[x]);
            assert(d.contains(d[x]));
            if y < d.len() {
                assert(c[y] == d[y]);
            }
        }
    }
}

proof fn lemma_grown(a: Seq<int>, b: Seq<int>, last: int, i: int)
    requires
        a == b || a == b.push(last),
    ensures
        a.contains(i) <==> b.contains(i) || (a == b.push(last) && i == last),
{
    if b.contains(i) {
        let k = choose|k: int| 0 <= k < b.len() && b[k] == i;
        assert(a[k] == i);
    }
    if a == b.push(last) {
        assert(a[b.len() as int] == last);
        if a.contains(i) && i != last {
            let k = choose|k: int| 0 <= k < a.len() && a[k] == i;
            assert(b[k] == i);
        }
    }
}

/// What is remembered of an address after a poll that saw a contact with it in the class: that it
/// is there, when it was seen and the cooldown asked for, and the time of its last alert.
pub open spec fn remembered_as_seen(
    was: Map<Seq<char>, Latch>,
    new: Map<Seq<char>, Latch>,
    hex: Seq<char>,
    cooldown: u128,
    now: u128,
) -> bool {
    &&& new.contains_key(hex)
    &&& new[hex].active
    &&& new[hex].last_seen == now
    &&& new[hex].cooldown == cooldown
    &&& unlatched(was, hex, cooldown, now) ==> new[hex].last_fired == Some(now)
    &&& !unlatched(was, hex, cooldown, now) ==> new[hex].last_fired == was[hex].last_fired
}

/// What is remembered of an address after a poll that did not see it: that it is gone, unless it
/// counts as present, and nothing once an hour and its cooldown have gone by since it was seen.
pub open spec fn remembered_as_unseen(
    was: Map<Seq<char>, Latch>,
    new: Map<Seq<char>, Latch>,
    hex: Seq<char>,
    present: bool,
    now: u128,
) -> bool {
    &&& new.contains_key(hex) <==> {
        &&& was.contains_key(hex)
        &&& {
            ||| was[hex].active && present
            ||| now < was[hex].last_seen + 3_600_000_000_000
            ||| was[hex].last_fired is Some && was[hex].cooldown > 0 && now
                < was[hex].last_fired->0 + was[hex].cooldown
        }
    }
    &&& new.contains_key(hex) ==> new[hex].active == (was[hex].active && present)
        && new[hex].last_fired == was[hex].last_fired && new[hex].last_seen == was[hex].last_seen
        && new[hex].cooldown == was[hex].cooldown
}

proof fn lemma_seen_latch(
    latches: Map<Seq<char>, Latch>,
    class: AlertClass,
    cs: Seq<Contact>,
    cooldown: u128,
    now: u128,
    hex: Seq<char>,
)
    requires
        exists|k: int| 0 <= k < cs.len() && in_class(class, #[trigger] cs[k]) && cs[k].hex == hex,
    ensures
        remembered_as_seen(
            latches,
            observed_all(latches, class, cs, cooldown, now),
            hex,
            cooldown,
            now,
        ),
    decreases cs.len(),
{
    let less = cs.drop_last();
    let last = cs.len() - 1;
    if exists|k: int| 0 <= k < less.len() && in_class(class, #[trigger] less[k]) && less[k].hex == hex {
        lemma_seen_latch(latches, class, less, cooldown, now, hex);
    } else {
        let k = choose|k: int|
            0 <= k < cs.len() && in_class(class, #[trigger] cs[k]) && cs[k].hex == hex;
        if k < last {
            assert(in_class(class, less[k]) && less[k].hex == hex);
        }
        lemma_untouched(latches, class, less, cooldown, now, hex);
    }
}

/// After a local reply, the radar remembers of each address with an overhead or interesting
/// contact in the reply that it was seen, and of every other that it was not.
pub proof fn local_replies_update_the_interesting(
    scope: Scope,
    cs: Seq<Contact>,
    cooldown: u128,
    now: u128,
    hex: Seq<char>,
)
    ensures
        ({
            let new = after_local(scope, cs, cooldown, now).interesting;
            let seen = exists|k: int|
                0 <= k < cs.len() && ((#[trigger] cs[k]).overhead || cs[k].interesting) && cs[k].hex
                    == hex;
            &&& seen ==> remembered_as_seen(scope.interesting, new, hex, cooldown, now)
            &&& !seen ==> remembered_as_unseen(scope.interesting, new, hex, false, now)
        }),
{
    let class = AlertClass::Interesting;
    lemma_members(class, cs, hex);
    if exists|k: int|
        0 <= k < cs.len() && ((#[trigger] cs[k]).overhead || cs[k].interesting) && cs[k].hex == hex {
        let k = choose|k: int|
            0 <= k < cs.len() && ((#[trigger] cs[k]).overhead || cs[k].interesting) && cs[k].hex
                == hex;
        assert(in_class(class, cs[k]) && cs[k].hex == hex);
        lemma_seen_latch(scope.interesting, class, cs, cooldown, now, hex);
    } else {
        lemma_untouched(scope.interesting, class, cs, cooldown, now, hex);
    }
}

/// After a local reply, the radar remembers of each address with an emergency in the reply that
/// it was seen. Of any other it remembers that it was not, but one that the last sweep found
/// still counts as present.
pub proof fn local_replies_update_the_emergencies(
    scope: Scope,
    cs: Seq<Contact>,
    cooldown: u128,
    now: u128,
    hex: Seq<char>,
)
    ensures
        ({
            let new = after_local(scope, cs, cooldown, now);
            let seen = exists|k: int|
                0 <= k < cs.len() && (#[trigger] cs[k]).is_emergency && cs[k].hex == hex;
            &&& seen ==> remembered_as_seen(scope.emergency, new.emergency, hex, cooldown, now)
            &&& !seen ==> remembered_as_unseen(
                scope.emergency,
                new.emergency,
                hex,
                scope.global.contains(hex),
                now,
            )
            &&& new.local.contains(hex) <==> seen
            &&& new.global == scope.global
        }),
{
    let class = AlertClass::Emergency;
    lemma_members(class, cs, hex);
    if exists|k: int| 0 <= k < cs.len() && (#[trigger] cs[k]).is_emergency && cs[k].hex == hex {
        let k = choose|k: int|
            0 <= k < cs.len() && (#[trigger] cs[k]).is_emergency && cs[k].hex == hex;
        assert(in_class(class, cs[k]) && cs[k].hex == hex);
        lemma_seen_latch(scope.emergency, class, cs, cooldown, now, hex);
    } else {
        lemma_untouched(scope.emergency, class, cs, cooldown, now, hex);
    }
}

/// After a sweep, the radar remembers of each address with an emergency among the contacts that
/// it was seen. Of any other it remembers that it was not, but one that the last local reply held
/// still counts as present. What is remembered of interesting contacts stays as it is.
pub proof fn sweeps_update_the_emergencies(
    scope: Scope,
    hits: Seq<Contact>,
    cooldown: u128,
    now: u128,
    hex: Seq<char>,
)
    ensures
        ({
            let new = after_global(scope, hits, cooldown, now);
            let seen = exists|k: int|
                0 <= k < hits.len() && (#[trigger] hits[k]).is_emergency && hits[k].hex == hex;
            &&& seen ==> remembered_as_seen(scope.emergency, new.emergency, hex, cooldown, now)
            &&& !seen ==> remembered_as_unseen(
                scope.emergency,
                new.emergency,
                hex,
                scope.local.contains(hex),
                now,
            )
            &&& new.global.contains(hex) <==> seen
            &&& new.local == scope.local
            &&& new.interesting == scope.interesting
        }),
{
    let class = AlertClass::Emergency;
    lemma_members(class, hits, hex);
    if exists|k: int| 0 <= k < hits.len() && (#[trigger] hits[k]).is_emergency && hits[k].hex == hex {
        let k = choose|k: int|
            0 <= k < hits.len() && (#[trigger] hits[k]).is_emergency && hits[k].hex == hex;
        assert(in_class(class, hits[k]) && hits[k].hex == hex);
        lemma_seen_latch(scope.emergency, class, hits, cooldown, now, hex);
    } else {
        lemma_untouched(scope.emergency, class, hits, cooldown, now, hex);
    }
}

proof fn lemma_latest(latest: Map<Seq<char>, Contact>, cs: Seq<Contact>, i: int)
    requires
        0 <= i < cs.len(),
        forall|k: int| i < k < cs.len() ==> (#[trigger] cs[k]).hex != cs[i].hex,
    ensures
        refreshed(latest, cs).contains_key(cs[i].hex),
        refreshed(latest, cs)[cs[i].hex] == cs[i],
    decreases cs.len(),
{
    if i < cs.len() - 1 {
        let less = cs.drop_last();
        assert forall|k: int| i < k < less.len() implies (#[trigger] less[k]).hex != less[i].hex by {
            assert(cs[k].hex != cs[i].hex);
        }
        lemma_latest(latest, less, i);
        assert(cs[cs.len() - 1].hex != cs[i].hex);
    }
}

proof fn lemma_not_refreshed(latest: Map<Seq<char>, Contact>, cs: Seq<Contact>, hex: Seq<char>)
    requires
        forall|k: int| 0 <= k < cs.len() ==> (#[trigger] cs[k]).hex != hex,
    ensures
        refreshed(latest, cs).contains_key(hex) == latest.contains_key(hex),
        latest.contains_key(hex) ==> refreshed(latest, cs)[hex] == latest[hex],
    decreases cs.len(),
{
    if cs.len() > 0 {
        let less = cs.drop_last();
        assert forall|k: int| 0 <= k < less.len() implies (#[trigger] less[k]).hex != hex by {
            assert(cs[k].hex != hex);
        }
        lemma_not_refreshed(latest, less, hex);
        assert(cs[cs.len() - 1].hex != hex);
    }
}

/// The radar keeps the last contact that a poll held for an address. A local reply drops what was
/// kept of every other address, a sweep keeps it.
pub proof fn freshest_contacts_are_kept(
    scope: Scope,
    cs: Seq<Contact>,
    cooldown: u128,
    now: u128,
    hex: Seq<char>,
)
    ensures
        forall|i: int|
            0 <= i < cs.len() && (forall|k: int|
                i < k < cs.len() ==> (#[trigger] cs[k]).hex != cs[i].hex) ==> {
                let (a, b) = (
                    after_local(scope, cs, cooldown, now).latest,
                    after_global(scope, cs, cooldown, now).latest,
                );
                &&& a.contains_key((#[trigger] cs[i]).hex) && a[cs[i].hex] == cs[i]
                &&& b.contains_key(cs[i].hex) && b[cs[i].hex] == cs[i]
            },
        (forall|k: int| 0 <= k < cs.len() ==> (#[trigger] cs[k]).hex != hex) ==> {
            let (a, b) = (
                after_local(scope, cs, cooldown, now).latest,
                after_global(scope, cs, cooldown, now).latest,
            );
            &&& !a.contains_key(hex)
            &&& b.contains_key(hex) == scope.latest.contains_key(hex)
            &&& scope.latest.contains_key(hex) ==> b[hex] == scope.latest[hex]
        },
{
    assert forall|i: int|
        0 <= i < cs.len() && (forall|k: int|
            i < k < cs.len() ==> (#[trigger] cs[k]).hex != cs[i].hex) implies {
        let (a, b) = (
            after_local(scope, cs, cooldown, now).latest,
            after_global(scope, cs, cooldown, now).latest,
        );
        &&& a.contains_key((#[trigger] cs[i]).hex) && a[cs[i].hex] == cs[i]
        &&& b.contains_key(cs[i].hex) && b[cs[i].hex] == cs[i]
    } by {
        lemma_latest(Map::empty(), cs, i);
        lemma_latest(scope.latest, cs, i);
    }
    if forall|k: int| 0 <= k < cs.len() ==> (#[trigger] cs[k]).hex != hex {
        lemma_not_refreshed(Map::empty(), cs, hex);
        lemma_not_refreshed(scope.latest, cs, hex);
    }
}

/// The disc holds the contact of every record that was heard less than a minute ago or does not
/// say when, and of no other: the contact of a record is that of its own measure.
pub proof fn recent_records_are_on_the_disc(
    records: Seq<Aircraft>,
    measures: Seq<Option<Measure>>,
    cfg: Config,
)
    requires
        measures.len() == records.len(),
    ensures
        forall|i: int|
            0 <= i < records.len() && ((#[trigger] records[i]).seen is None || (
            !records[i].seen->0.is_nan() && records[i].seen->0.units() < 60 * pow2(1074)))
                ==> heard_locally(records, measures, cfg).contains(
                classified(records[i], cfg, measures[i]),
            ),
        forall|a: int|
            0 <= a < heard_locally(records, measures, cfg).len() ==> exists|i: int|
                0 <= i < records.len() && ((#[trigger] records[i]).seen is None || (
                !records[i].seen->0.is_nan() && records[i].seen->0.units() < 60 * pow2(1074)))
                    && #[trigger] heard_locally(records, measures, cfg)[a] == classified(
                    records[i],
                    cfg,
                    measures[i],
                ),
        heard_locally(records, measures, cfg).len() == records.filter(
            |r: Aircraft|
                r.seen is None || (!r.seen->0.is_nan() && r.seen->0.units() < 60 * pow2(1074)),
        ).len(),
{
    lemma_disc(records, measures, cfg);
}

proof fn lemma_disc(records: Seq<Aircraft>, measures: Seq<Option<Measure>>, cfg: Config)
    requires
        measures.len() >= records.len(),
    ensures
        forall|i: int|
            0 <= i < records.len() && ((#[trigger] records[i]).seen is None || (
            !records[i].seen->0.is_nan() && records[i].seen->0.units() < 60 * pow2(1074)))
                ==> heard_locally(records, measures, cfg).contains(
                classified(records[i], cfg, measures[i]),
            ),
        forall|a: int|
            0 <= a < heard_locally(records, measures, cfg).len() ==> exists|i: int|
                0 <= i < records.len() && ((#[trigger] records[i]).seen is None || (
                !records[i].seen->0.is_nan() && records[i].seen->0.units() < 60 * pow2(1074)))
                    && #[trigger] heard_locally(records, measures, cfg)[a] == classified(
                    records[i],
                    cfg,
                    measures[i],
                ),
        heard_locally(records, measures, cfg).len() == records.filter(
            |r: Aircraft|
                r.seen is None || (!r.seen->0.is_nan() && r.seen->0.units() < 60 * pow2(1074)),
        ).len(),
    decreases records.len(),
{
    reveal(Seq::filter);
    let recent = |r: Aircraft|
        r.seen is None || (!r.seen->0.is_nan() && r.seen->0.units() < 60 * pow2(1074));
    if records.len() > 0 {
        let less = records.drop_last();
        let last = records.len() - 1;
        lemma_disc(less, measures, cfg);
        old_records_are_dropped(records[last].seen);
        let (a, b) = (heard_locally(records, measures, cfg), heard_locally(less, measures, cfg));
        assert forall|i: int| 0 <= i < records.len() && recent(#[trigger] records[i]) implies a.contains(
            classified(records[i], cfg, measures[i]),
        ) by {
            if i < last {
                assert(less[i] == records[i]);
                let c = classified(less[i], cfg, measures[i]);
                assert(b.contains(c));
                let k = choose|k: int| 0 <= k < b.len() && b[k] == c;
                assert(a[k] == c);
            } else {
                assert(a[b.len() as int] == classified(records[i], cfg, measures[i]));
            }
        }
        assert forall|k: int| 0 <= k < a.len() implies exists|i: int|
            0 <= i < records.len() && recent(#[trigger] records[i]) && #[trigger] a[k] == classified(
                records[i],
                cfg,
                measures[i],
            ) by {
            if k < b.len() {
                assert(a[k] == b[k]);
                let i = choose|i: int|
                    0 <= i < less.len() && ((#[trigger] less[i]).seen is None || (
                    !less[i].seen->0.is_nan() && less[i].seen->0.units() < 60 * pow2(1074)))
                        && b[k] == classified(less[i], cfg, measures[i]);
                assert(records[i] == less[i]);
                assert(recent(records[i]));
            } else {
                assert(recent(records[last]));
            }
        }
    }
}

/// The survey puts a nearer contact before a farther one, whatever the order of the reply, and a
/// contact whose distance is known before one whose is not.
pub proof fn nearer_contacts_come_first(cs: Seq<Contact>, a: int, b: int)
    requires
        0 <= a < b < cs.len(),
    ensures
        ({
            let near = nearest_first(cs);
            let known = |c: Contact| c.dst_km is Some && !c.dst_km->0.is_nan();
            &&& known(near[a]) && known(near[b]) ==> near[a].dst_km->0.units()
                <= near[b].dst_km->0.units()
            &&& !known(near[a]) && known(near[b]) ==> near[b].dst_km->0.units() >= number(
                0x7fef_ffff_ffff_ffff,
            ).units()
        }),
{
    let near = nearest_first(cs);
    survey_is_nearest_first(cs);
    let (x, y) = (near[a], near[b]);
    assert(distance_key(x) <= distance_key(y));
    let far = number(0x7fef_ffff_ffff_ffff);
    if y.dst_km is Some && !y.dst_km->0.is_nan() {
        key_orders_values(far, y.dst_km->0);
        if x.dst_km is Some && !x.dst_km->0.is_nan() {
            key_orders_values(x.dst_km->0, y.dst_km->0);
        }
    }
}

/// Contacts at one distance stay in the order of the reply.
pub proof fn equally_near_contacts_keep_their_order(cs: Seq<Contact>, i: int, j: int)
    requires
        0 <= i < j < cs.len(),
        cs[i].dst_km == cs[j].dst_km,
    ensures
        exists|a: int, b: int|
            0 <= a < b < cs.len() && #[trigger] nearest_first(cs)[a] == cs[i]
                && #[trigger] nearest_first(cs)[b] == cs[j],
{
    let keys = cs.map_values(|c: Contact| distance_key(c));
    let p = ranking(keys);
    stable_order_exists(keys);
    lemma_ranking_len(keys, p);
    assert(p.contains(i) && p.contains(j));
    let a = choose|a: int| 0 <= a < p.len() && p[a] == i;
    let b = choose|b: int| 0 <= b < p.len() && p[b] == j;
    if b < a {
        assert(before(keys, p[b], p[a]));
    }
    assert(nearest_first(cs)[a] == cs[i] && nearest_first(cs)[b] == cs[j]);
}

/// The endpoint's word is taken only where it adds something: an emergency stays as it is, and so
/// does a surface vehicle or a fixed obstruction. Any other contact becomes an emergency, with
/// the squawk as its last reason, and keeps all else.
pub proof fn trust_adds_the_squawk(c: Contact, sqk: Seq<char>)
    ensures
        c.is_emergency || is_surface(c.category) ==> trusted(c, sqk) == c,
        !c.is_emergency && !is_surface(c.category) ==> {
            let t = trusted(c, sqk);
            &&& t.is_emergency
            &&& t.reasons.len() == c.reasons.len() + 1
            &&& forall|i: int| 0 <= i < c.reasons.len() ==> t.reasons[i] == c.reasons[i]
            &&& t.reasons.last() == "squawk:"@ + sqk
            &&& (Contact { is_emergency: c.is_emergency, reasons: c.reasons, ..t }) == c
        },
{
}

proof fn lemma_with_hit(hits: Seq<Contact>, c: Contact)
    requires
        one_each(hits),
    ensures
        one_each(with_hit(hits, c)),
        exists|i: int| 0 <= i < with_hit(hits, c).len() && #[trigger] with_hit(hits, c)[i] == c,
        forall|i: int|
            0 <= i < with_hit(hits, c).len() ==> #[trigger] with_hit(hits, c)[i] == c || (with_hit(
                hits,
                c,
            )[i].hex != c.hex && hits.contains(with_hit(hits, c)[i])),
        forall|i: int|
            0 <= i < hits.len() && (#[trigger] hits[i]).hex != c.hex ==> with_hit(hits, c).contains(
                hits[i],
            ),
{
    let new = with_hit(hits, c);
    if exists|i: int| hit_at(hits, c.hex, i) {
        let k = choose|i: int| hit_at(hits, c.hex, i);
        assert(new[k] == c);
        assert forall|i: int, j: int| 0 <= i < j < new.len() implies #[trigger] new[i].hex
            != #[trigger] new[j].hex by {
            assert(hits[i].hex != hits[j].hex);
        }
        assert forall|i: int| 0 <= i < new.len() implies #[trigger] new[i] == c || (new[i].hex
            != c.hex && hits.contains(new[i])) by {
            if i != k {
                assert(new[i] == hits[i]);
                if i < k {
                    assert(hits[i].hex != hits[k].hex);
                } else {
                    assert(hits[k].hex != hits[i].hex);
                }
            }
        }
        assert forall|i: int| 0 <= i < hits.len() && (#[trigger] hits[i]).hex != c.hex implies new.contains(
            hits[i],
        ) by {
            assert(new[i] == hits[i]);
        }
    } else {
        assert(new[hits.len() as int] == c);
        assert forall|i: int| 0 <= i < hits.len() implies (#[trigger] hits[i]).hex != c.hex by {
            assert(!hit_at(hits, c.hex, i));
        }
        assert forall|i: int, j: int| 0 <= i < j < new.len() implies #[trigger] new[i].hex
            != #[trigger] new[j].hex by {
            assert(new[i] == hits[i]);
            if j < hits.len() {
                assert(new[j] == hits[j]);
            }
        }
        assert forall|i: int| 0 <= i < new.len() implies #[trigger] new[i] == c || (new[i].hex
            != c.hex && hits.contains(new[i])) by {
            if i < hits.len() {
                assert(new[i] == hits[i]);
            }
        }
        assert forall|i: int| 0 <= i < hits.len() && (#[trigger] hits[i]).hex != c.hex implies new.contains(
            hits[i],
        ) by {
            assert(new[i] == hits[i]);
        }
    }
}

/// The record was heard at most two minutes ago, or does not say when.
pub open spec fn heard_lately(r: Aircraft) -> bool {
    r.seen is None || r.seen->0.is_nan() || r.seen->0.units() <= 120 * pow2(1074)
}

/// The contact that a reply for a squawk adds for its record at `i`.
spec fn reply_contact(
    sqk: Seq<char>,
    records: Seq<Aircraft>,
    measures: Seq<Option<Measure>>,
    cfg: Config,
    i: int,
) -> Contact {
    trusted(classified(records[i], cfg, measures[i]), sqk)
}

/// No record from `i` on that was heard lately has this address.
spec fn unheard_from(records: Seq<Aircraft>, i: int, hex: Seq<char>) -> bool {
    forall|k: int|
        i <= k < records.len() && heard_lately(#[trigger] records[k]) ==> records[k].hex@ != hex
}

proof fn lemma_reply_step(
    hits: Seq<Contact>,
    sqk: Seq<char>,
    records: Seq<Aircraft>,
    measures: Seq<Option<Measure>>,
    cfg: Config,
)
    requires
        one_each(hits),
    ensures
        one_each(with_reply(hits, sqk, records, measures, cfg)),
    decreases records.len(),
{
    if records.len() > 0 {
        let less = records.drop_last();
        let last = records.len() - 1;
        lemma_reply_step(hits, sqk, less, measures, cfg);
        if is_fresh_global(records[last].seen) {
            lemma_with_hit(
                with_reply(hits, sqk, less, measures, cfg),
                reply_contact(sqk, records, measures, cfg, last),
            );
        }
    }
}

proof fn lemma_reply_keeps(
    hits: Seq<Contact>,
    sqk: Seq<char>,
    records: Seq<Aircraft>,
    measures: Seq<Option<Measure>>,
    cfg: Config,
    c: Contact,
)
    requires
        one_each(hits),
        hits.contains(c),
        unheard_from(records, 0, c.hex),
    ensures
        with_reply(hits, sqk, records, measures, cfg).contains(c),
    decreases records.len(),
{
    if records.len() > 0 {
        let less = records.drop_last();
        let last = records.len() - 1;
        assert forall|k: int| 0 <= k < less.len() && heard_lately(#[trigger] less[k]) implies
            less[k].hex@ != c.hex by {
            assert(heard_lately(records[k]));
        }
        lemma_reply_keeps(hits, sqk, less, measures, cfg, c);
        let mid = with_reply(hits, sqk, less, measures, cfg);
        let m = choose|m: int| 0 <= m < mid.len() && mid[m] == c;
        old_records_are_dropped(records[last].seen);
        if heard_lately(records[last]) {
            lemma_reply_step(hits, sqk, less, measures, cfg);
            lemma_with_hit(mid, reply_contact(sqk, records, measures, cfg, last));
            assert(mid[m].hex != reply_contact(sqk, records, measures, cfg, last).hex);
        }
    }
}

proof fn lemma_reply_adds(
    hits: Seq<Contact>,
    sqk: Seq<char>,
    records: Seq<Aircraft>,
    measures: Seq<Option<Measure>>,
    cfg: Config,
    i: int,
)
    requires
        one_each(hits),
        0 <= i < records.len(),
        heard_lately(records[i]),
        unheard_from(records, i + 1, records[i].hex@),
    ensures
        with_reply(hits, sqk, records, measures, cfg).contains(
            reply_contact(sqk, records, measures, cfg, i),
        ),
    decreases records.len(),
{
    let less = records.drop_last();
    let last = records.len() - 1;
    let mid = with_reply(hits, sqk, less, measures, cfg);
    let c = reply_contact(sqk, records, measures, cfg, i);
    lemma_reply_step(hits, sqk, less, measures, cfg);
    old_records_are_dropped(records[last].seen);
    if i == last {
        lemma_with_hit(mid, c);
    } else {
        assert forall|k: int| i + 1 <= k < less.len() && heard_lately(#[trigger] less[k]) implies
            less[k].hex@ != less[i].hex@ by {
            assert(heard_lately(records[k]));
        }
        lemma_reply_adds(hits, sqk, less, measures, cfg, i);
        assert(reply_contact(sqk, less, measures, cfg, i) == c);
        let m = choose|m: int| 0 <= m < mid.len() && mid[m] == c;
        if heard_lately(records[last]) {
            lemma_with_hit(mid, reply_contact(sqk, records, measures, cfg, last));
            assert(mid[m].hex != reply_contact(sqk, records, measures, cfg, last).hex);
        }
    }
}

proof fn lemma_reply_adds_nothing_else(
    hits: Seq<Contact>,
    sqk: Seq<char>,
    records: Seq<Aircraft>,
    measures: Seq<Option<Measure>>,
    cfg: Config,
    c: Contact,
)
    requires
        one_each(hits),
        with_reply(hits, sqk, records, measures, cfg).contains(c),
    ensures
        hits.contains(c) || exists|i: int|
            0 <= i < records.len() && heard_lately(#[trigger] records[i]) && c == trusted(
                classified(records[i], cfg, measures[i]),
                sqk,
            ),
    decreases records.len(),
{
    if records.len() > 0 {
        let less = records.drop_last();
        let last = records.len() - 1;
        let mid = with_reply(hits, sqk, less, measures, cfg);
        let new = with_reply(hits, sqk, records, measures, cfg);
        lemma_reply_step(hits, sqk, less, measures, cfg);
        old_records_are_dropped(records[last].seen);
        let added = reply_contact(sqk, records, measures, cfg, last);
        if heard_lately(records[last]) {
            lemma_with_hit(mid, added);
            let a = choose|a: int| 0 <= a < new.len() && new[a] == c;
            assert(new[a] == added || mid.contains(new[a]));
        }
        if mid.contains(c) {
            lemma_reply_adds_nothing_else(hits, sqk, less, measures, cfg, c);
            if !hits.contains(c) {
                let i = choose|i: int|
                    0 <= i < less.len() && heard_lately(#[trigger] less[i]) && c == trusted(
                        classified(less[i], cfg, measures[i]),
                        sqk,
                    );
                assert(records[i] == less[i]);
                assert(heard_lately(records[i]));
            }
        } else {
            assert(heard_lately(records[last]) && c == added);
        }
    }
}

/// A reply for a squawk adds the contact of every record that was heard lately, and a later
/// record of an address replaces what stood there under it. Contacts with other addresses stay,
/// nothing else is added, and each address stands in the sweep once.
pub proof fn replies_add_recent_records(
    hits: Seq<Contact>,
    sqk: Seq<char>,
    records: Seq<Aircraft>,
    measures: Seq<Option<Measure>>,
    cfg: Config,
)
    requires
        one_each(hits),
        measures.len() >= records.len(),
    ensures
        ({
            let new = with_reply(hits, sqk, records, measures, cfg);
            &&& one_each(new)
            &&& forall|i: int|
                0 <= i < records.len() && heard_lately(#[trigger] records[i]) && (forall|k: int|
                    i < k < records.len() && heard_lately(#[trigger] records[k]) ==> records[k].hex@
                        != records[i].hex@) ==> new.contains(
                    trusted(classified(records[i], cfg, measures[i]), sqk),
                )
            &&& forall|i: int|
                0 <= i < hits.len() && (forall|k: int|
                    0 <= k < records.len() && heard_lately(#[trigger] records[k]) ==> records[k].hex@
                        != hits[i].hex) ==> new.contains(#[trigger] hits[i])
            &&& forall|a: int|
                0 <= a < new.len() ==> hits.contains(#[trigger] new[a]) || exists|i: int|
                    0 <= i < records.len() && heard_lately(#[trigger] records[i]) && new[a] == trusted(
                        classified(records[i], cfg, measures[i]),
                        sqk,
                    )
        }),
{
    let new = with_reply(hits, sqk, records, measures, cfg);
    lemma_reply_step(hits, sqk, records, measures, cfg);
    assert forall|i: int|
        0 <= i < records.len() && heard_lately(#[trigger] records[i]) && (forall|k: int|
            i < k < records.len() && heard_lately(#[trigger] records[k]) ==> records[k].hex@
                != records[i].hex@) implies new.contains(
        trusted(classified(records[i], cfg, measures[i]), sqk),
    ) by {
        lemma_reply_adds(hits, sqk, records, measures, cfg, i);
    }
    assert forall|i: int|
        0 <= i < hits.len() && (forall|k: int|
            0 <= k < records.len() && heard_lately(#[trigger] records[k]) ==> records[k].hex@
                != hits[i].hex) implies new.contains(#[trigger] hits[i]) by {
        lemma_reply_keeps(hits, sqk, records, measures, cfg, hits[i]);
    }
    assert forall|a: int| 0 <= a < new.len() implies hits.contains(#[trigger] new[a]) || exists|
        i: int,
    |
        0 <= i < records.len() && heard_lately(#[trigger] records[i]) && new[a] == trusted(
            classified(records[i], cfg, measures[i]),
            sqk,
        ) by {
        assert(new.contains(new[a]));
        lemma_reply_adds_nothing_else(hits, sqk, records, measures, cfg, new[a]);
    }
}

/// Cooldowns are whole seconds: a contact that fired, and has left since, fires again once so many
/// seconds have gone by since its alert, and not before.
pub proof fn cooldowns_are_in_seconds(
    scope: Scope,
    cs: Seq<Contact>,
    secs: u64,
    fired_at: u128,
    now: u128,
)
    requires
        cs.len() == 1,
        cs[0].overhead || cs[0].interesting,
        scope.interesting.contains_key(cs[0].hex),
        !scope.interesting[cs[0].hex].active,
        scope.interesting[cs[0].hex].last_fired == Some(fired_at),
        fired_at <= now,
    ensures
        local_alerts(scope, cs, nanos(secs), now).contains((AlertClass::Interesting, 0)) <==> now
            - fired_at >= secs * 1_000_000_000,
{
    local_replies_alert_for_each_entry(scope, cs, nanos(secs), now, 0);
    assert(secs * 1_000_000_000 <= u64::MAX * 1_000_000_000);
    assert(nanos(secs) == secs * 1_000_000_000);
}

/// A catch records what the radar last heard of the address: the row in the dex holds the squawk
/// of that contact, and every detail that it reports. Where the radar heard nothing of it, the
/// catch changes no detail.
pub proof fn catches_record_the_freshest_detail(
    log: Seq<Row>,
    latest: Map<Seq<char>, Contact>,
    hex: Seq<char>,
    now: i64,
)
    requires
        keyed(log),
        hex.len() > 0,
        latest.contains_key(hex) ==> latest[hex].hex == hex,
    ensures
        latest.contains_key(hex) ==> ({
            let new = after_catch(log_at_catch(Some(log), latest, hex, now), hex, now)->0;
            let c = latest[hex];
            exists|i: int|
                {
                    &&& 0 <= i < new.len()
                    &&& (#[trigger] new[i]).hex == hex
                    &&& new[i].caught_at is Some
                    &&& new[i].last_seen_at == now
                    &&& new[i].squawk == c.squawk
                    &&& c.flight is Some && c.flight->0.len() > 0 ==> new[i].callsign == c.flight
                    &&& c.reg is Some ==> new[i].registration == c.reg
                    &&& c.t is Some ==> new[i].type_code == c.t
                    &&& c.operator is Some ==> new[i].operator == c.operator
                    &&& c.is_emergency || c.interesting ==> new[i].notable
                }
        }),
        !latest.contains_key(hex) ==> ({
            let new = after_catch(log_at_catch(Some(log), latest, hex, now), hex, now)->0;
            &&& new.len() == log.len()
            &&& forall|i: int|
                0 <= i < log.len() ==> (Row { caught_at: log[i].caught_at, ..#[trigger] new[i] })
                    == log[i]
        }),
{
    if latest.contains_key(hex) {
        let c = latest[hex];
        let cs = seq![c];
        batches_log_every_contact(log, cs, now, 0);
        assert(cs.drop_last() =~= Seq::empty());
        assert(recorded_all(log, cs.drop_last(), now) == log);
        let mid = recorded_all(log, cs, now);
        assert(log_at_catch(Some(log), latest, hex, now) == Some(mid));
        let a = choose|a: int|
            {
                &&& 0 <= a < mid.len()
                &&& (#[trigger] mid[a]).hex == c.hex
                &&& mid[a].last_seen_at == now
                &&& mid[a].squawk == c.squawk
                &&& c.flight is Some && c.flight->0.len() > 0 ==> mid[a].callsign == c.flight
                &&& c.reg is Some ==> mid[a].registration == c.reg
                &&& c.t is Some ==> mid[a].type_code == c.t
                &&& c.operator is Some ==> mid[a].operator == c.operator
                &&& c.is_emergency || c.interesting ==> mid[a].notable
            };
        catching_touches_one_stamp(mid, hex, now);
        let new = after_catch(log_at_catch(Some(log), latest, hex, now), hex, now)->0;
        assert(new[a].hex == hex);
    } else {
        catching_touches_one_stamp(log, hex, now);
    }
}

} // verus!
