//! Edge-triggered alert latches.
use vstd::prelude::*;

use crate::clock::Clock;
use crate::table::Table;
use crate::text::{holds_text, texts_of};

verus! {

/// The two kinds of alert.
#[derive(Clone, Copy, Debug, PartialEq, Eq, Structural)]
pub enum AlertClass {
    Interesting,
    Emergency,
}

/// How long a contact stays unseen before its latch may be forgotten, in nanoseconds.
pub const STALE_NANOS: u128 = 3_600_000_000_000;

/// The latch of one contact. Times are nanoseconds on the clock of its engine.
#[derive(Clone, Copy, Debug, PartialEq, Eq, Structural)]
pub struct Latch {
    /// The contact has been in the class since it was last seen to enter it.
    pub active: bool,
    /// When the last alert was fired.
    pub last_fired: Option<u128>,
    /// When the contact was last seen in the class.
    pub last_seen: u128,
    /// The cooldown that was asked for when it was last seen.
    pub cooldown: u128,
}

/// The time from `since` to `now`, zero where the clock reads earlier than `since`.
pub open spec fn elapsed(now: u128, since: u128) -> int {
    if now >= since {
        now - since
    } else {
        0
    }
}

impl Latch {
    /// The cooldown of the last alert is still running.
    pub open spec fn cooling(self, now: u128) -> bool {
        self.last_fired matches Some(t) && elapsed(now, t) < self.cooldown
    }

    /// The latch holds nothing that a later decision depends on: the contact has left the class,
    /// has not been seen for long, and its cooldown is over.
    pub open spec fn forgettable(self, now: u128) -> bool {
        !self.active && elapsed(now, self.last_seen) >= STALE_NANOS && !self.cooling(now)
    }

    /// The latch after a sweep that saw the contact in the class, or did not.
    pub open spec fn swept(self, present: bool) -> Latch {
        Latch { active: self.active && present, ..self }
    }
}

/// Whether a sighting of `hex` at `now` fires an alert: on entry into the class, and only where
/// no alert was fired within the cooldown.
pub open spec fn fires(
    latches: Map<Seq<char>, Latch>,
    hex: Seq<char>,
    cooldown: u128,
    now: u128,
) -> bool {
    !latches.contains_key(hex) || (!latches[hex].active && (latches[hex].last_fired matches Some(t)
        ==> elapsed(now, t) >= cooldown))
}

/// The latches after a sighting of `hex` at `now`.
pub open spec fn observed(
    latches: Map<Seq<char>, Latch>,
    hex: Seq<char>,
    cooldown: u128,
    now: u128,
) -> Map<Seq<char>, Latch> {
    let last_fired = if fires(latches, hex, cooldown, now) {
        Some(now)
    } else {
        latches[hex].last_fired
    };
    latches.insert(hex, Latch { active: true, last_fired, last_seen: now, cooldown })
}

/// The latches after a sweep at `now` that saw exactly the contacts in `present`.
pub open spec fn swept(
    latches: Map<Seq<char>, Latch>,
    present: Set<Seq<char>>,
    now: u128,
) -> Map<Seq<char>, Latch> {
    Map::new(
        |h: Seq<char>|
            latches.contains_key(h) && !latches[h].swept(present.contains(h)).forgettable(now),
        |h: Seq<char>| latches[h].swept(present.contains(h)),
    )
}

/// Edge-triggered alert latches, keyed on hex. One engine per alert class.
pub struct AlertEngine {
    map: Table<Latch>,
    clock: Clock,
}

impl AlertEngine {
    /// The latches are well formed.
    pub closed spec fn wf(&self) -> bool {
        self.map.wf()
    }

    /// The latch of each contact that the engine remembers.
    pub closed spec fn view(&self) -> Map<Seq<char>, Latch> {
        self.map@
    }

    /// The last reading of the engine's clock.
    pub closed spec fn time(&self) -> u128 {
        self.clock.time()
    }

    /// An engine that remembers nothing.
    pub fn new() -> (r: AlertEngine)
        ensures
            r.wf(),
            r@ == Map::<Seq<char>, Latch>::empty(),
            r.time() == 0,
    {
        AlertEngine { map: Table::new(), clock: Clock::start() }
    }

    /// Records that `hex` currently matches the class. Returns true exactly when an alert should
    /// fire: on entry, and only outside the cooldown. The time is read from the engine's clock.
    pub fn observe(&mut self, hex: &str, cooldown: u128) -> (fired: bool)
        requires
            old(self).wf(),
        ensures
            final(self).wf(),
            final(self).time() >= old(self).time(),
            fired == fires(old(self)@, hex@, cooldown, final(self).time()),
            final(self)@ == observed(old(self)@, hex@, cooldown, final(self).time()),
    {
        let now: u128 = self.clock.now();
        self.observe_at(hex, cooldown, now)
    }

    /// `observe` with the time given.
    pub fn observe_at(&mut self, hex: &str, cooldown: u128, now: u128) -> (fired: bool)
        requires
            old(self).wf(),
        ensures
            final(self).wf(),
            final(self).time() == old(self).time(),
            fired == fires(old(self)@, hex@, cooldown, now),
            final(self)@ == observed(old(self)@, hex@, cooldown, now),
    {
        let known: Option<Latch> = match self.map.get(hex) {
            Some(l) => Some(*l),
            None => None,
        };
        let (fired, last_fired): (bool, Option<u128>) = match known {
            Some(l) => {
                let due: bool = !l.active && match l.last_fired {
                    Some(t) => since(now, t) >= cooldown,
                    None => true,
                };
                (due, if due {
                    Some(now)
                } else {
                    l.last_fired
                })
            },
            None => (true, Some(now)),
        };
        self.map.set(hex, Latch { active: true, last_fired, last_seen: now, cooldown });
        fired
    }

    /// Deactivates every contact that is not in `present`, and forgets latches that no longer
    /// matter. The time is read from the engine's clock.
    pub fn sweep(&mut self, present: &Vec<String>)
        requires
            old(self).wf(),
        ensures
            final(self).wf(),
            final(self).time() >= old(self).time(),
            final(self)@ == swept(old(self)@, texts_of(present@).to_set(), final(self).time()),
    {
        let now: u128 = self.clock.now();
        self.sweep_at(present, now);
    }

    /// `sweep` with the time given.
    pub fn sweep_at(&mut self, present: &Vec<String>, now: u128)
        requires
            old(self).wf(),
        ensures
            final(self).wf(),
            final(self).time() == old(self).time(),
            final(self)@ == swept(old(self)@, texts_of(present@).to_set(), now),
    {
        let ghost here = texts_of(present@).to_set();
        let ghost goal = swept(self@, here, now);
        let n: usize = self.map.size();
        let mut kept: Table<Latch> = Table::new();
        let mut i: usize = 0;
        while i < n
            invariant
                self.wf(),
                n == self.map.rows().len(),
                i <= n,
                here == texts_of(present@).to_set(),
                goal == swept(self@, here, now),
                kept.wf(),
                forall|k: Seq<char>|
                    #[trigger] kept@.contains_key(k) ==> goal.contains_key(k) && kept@[k] == goal[k],
                forall|j: int|
                    0 <= j < i && goal.contains_key(#[trigger] self.map.rows()[j].0@)
                        ==> kept@.contains_key(self.map.rows()[j].0@),
            decreases n - i,
        {
            let row: &(String, Latch) = self.map.row(i);
            let hex: &str = row.0.as_str();
            let present_now: bool = holds_text(present, hex);
            assert(present_now == here.contains(hex@));
            let latch: Latch = Latch { active: row.1.active && present_now, ..row.1 };
            let cooling: bool = match latch.last_fired {
                Some(t) => since(now, t) < latch.cooldown,
                None => false,
            };
            let forget: bool = !latch.active && since(now, latch.last_seen) >= STALE_NANOS
                && !cooling;
            proof {
                assert(latch == self@[hex@].swept(here.contains(hex@)));
                assert(goal.contains_key(hex@) == !forget);
            }
            let ghost before = kept@;
            if !forget {
                kept.set(hex, latch);
            }
            assert forall|k: Seq<char>| #[trigger] kept@.contains_key(k) implies goal.contains_key(k)
                && kept@[k] == goal[k] by {
                assert(k != hex@ ==> before.contains_key(k) && before[k] == kept@[k]);
            }
            i += 1;
        }
        proof {
            assert forall|k: Seq<char>| goal.contains_key(k) implies kept@.contains_key(k) by {
                self.map.lemma_key_has_row(k);
            }
            assert(kept@ =~= goal);
        }
        self.map = kept;
    }
}

/// The time from `earlier` to `now`, zero where the clock reads earlier.
fn since(now: u128, earlier: u128) -> (r: u128)
    ensures
        r == elapsed(now, earlier),
{
    if now >= earlier {
        now - earlier
    } else {
        0
    }
}

/// One call on an engine.
pub ghost enum AlertEvent {
    Observe { hex: Seq<char>, cooldown: u128, now: u128 },
    Sweep { present: Set<Seq<char>>, now: u128 },
}

impl AlertEvent {
    /// When the call was made.
    pub open spec fn time(self) -> u128 {
        match self {
            AlertEvent::Observe { now, .. } => now,
            AlertEvent::Sweep { now, .. } => now,
        }
    }

    /// The latches after the call.
    pub open spec fn apply(self, latches: Map<Seq<char>, Latch>) -> Map<Seq<char>, Latch> {
        match self {
            AlertEvent::Observe { hex, cooldown, now } => observed(latches, hex, cooldown, now),
            AlertEvent::Sweep { present, now } => swept(latches, present, now),
        }
    }

    /// The call is a sighting of `hex` that fires an alert.
    pub open spec fn alerts(self, latches: Map<Seq<char>, Latch>, hex: Seq<char>) -> bool {
        self matches AlertEvent::Observe { hex: h, cooldown, now } && h == hex && fires(
            latches,
            hex,
            cooldown,
            now,
        )
    }
}

/// The latches after the first `n` calls of a history that starts with nothing remembered.
pub open spec fn latches_after(history: Seq<AlertEvent>, n: int) -> Map<Seq<char>, Latch>
    decreases n,
{
    if n <= 0 {
        Map::empty()
    } else {
        history[n - 1].apply(latches_after(history, n - 1))
    }
}

/// Times never run backwards in the history, and every sighting asks for the same cooldown.
pub open spec fn orderly(history: Seq<AlertEvent>, cooldown: u128) -> bool {
    &&& forall|i: int, j: int|
        0 <= i <= j < history.len() ==> #[trigger] history[i].time() <= #[trigger] history[j].time()
    &&& forall|i: int|
        0 <= i < history.len() ==> (#[trigger] history[i] matches AlertEvent::Observe {
            cooldown: c,
            ..
        } ==> c == cooldown)
}

/// A sweep between the two positions found `hex` gone from the class.
pub open spec fn left_between(history: Seq<AlertEvent>, i: int, j: int, hex: Seq<char>) -> bool {
    exists|k: int|
        i < k < j && (#[trigger] history[k] matches AlertEvent::Sweep { present, .. }
            && !present.contains(hex))
}

/// One alert per entry: between two alerts for one contact, a sweep found it gone from the
/// class and at least the cooldown went by.
pub proof fn one_alert_per_entry(
    history: Seq<AlertEvent>,
    cooldown: u128,
    hex: Seq<char>,
    i: int,
    j: int,
)
    requires
        orderly(history, cooldown),
        0 <= i < j < history.len(),
        history[i].alerts(latches_after(history, i), hex),
        history[j].alerts(latches_after(history, j), hex),
    ensures
        history[j].time() - history[i].time() >= cooldown,
        left_between(history, i, j, hex),
{
    lemma_latch_holds(history, cooldown, hex, i, j);
    let m = latches_after(history, j);
    if left_between(history, i, j, hex) {
    } else {
        assert(m.contains_key(hex) && m[hex].active);
    }
}

proof fn lemma_latch_holds(
    history: Seq<AlertEvent>,
    cooldown: u128,
    hex: Seq<char>,
    i: int,
    n: int,
)
    requires
        orderly(history, cooldown),
        0 <= i < n <= history.len(),
        history[i].alerts(latches_after(history, i), hex),
    ensures
        left_between(history, i, n, hex) || (latches_after(history, n).contains_key(hex)
            && latches_after(history, n)[hex].active),
        history[n - 1].time() - history[i].time() >= cooldown || (latches_after(
            history,
            n,
        ).contains_key(hex) && latches_after(history, n)[hex].last_fired == Some(history[i].time())
            && latches_after(history, n)[hex].cooldown == cooldown),
    decreases n,
{
    if n > i + 1 {
        lemma_latch_holds(history, cooldown, hex, i, n - 1);
        let e = history[n - 1];
        let m = latches_after(history, n - 1);
        assert(history[n - 2].time() <= history[n - 1].time());
        assert(history[i].time() <= history[n - 1].time());
        if left_between(history, i, n - 1, hex) {
            let k = choose|k: int|
                i < k < n - 1 && (#[trigger] history[k] matches AlertEvent::Sweep { present, .. }
                    && !present.contains(hex));
            assert(i < k < n);
            assert(left_between(history, i, n, hex));
        } else {
            match e {
                AlertEvent::Observe { hex: h, cooldown: c, now } => {},
                AlertEvent::Sweep { present, now } => {
                    if !present.contains(hex) {
                        assert(i < n - 1 < n);
                        assert(left_between(history, i, n, hex));
                    }
                },
            }
        }
    }
}

/// A contact that the engine does not remember alerts when it is seen.
pub proof fn first_sighting_alerts(
    latches: Map<Seq<char>, Latch>,
    hex: Seq<char>,
    cooldown: u128,
    now: u128,
)
    requires
        !latches.contains_key(hex),
    ensures
        fires(latches, hex, cooldown, now),
{
}

/// A contact that has left the class alerts on its next entry as soon as the cooldown since its
/// last alert is over, whether or not the engine has forgotten it by then.
pub proof fn rearmed_contact_alerts(
    latches: Map<Seq<char>, Latch>,
    hex: Seq<char>,
    fired_at: u128,
    present: Set<Seq<char>>,
    gone_at: u128,
    cooldown: u128,
    now: u128,
)
    requires
        latches.contains_key(hex),
        latches[hex].last_fired == Some(fired_at),
        !present.contains(hex),
        elapsed(now, fired_at) >= cooldown,
    ensures
        fires(swept(latches, present, gone_at), hex, cooldown, now),
{
}

/// Sightings and sweeps leave the latches of other contacts alone, and a contact that stays in
/// the class stays latched.
pub proof fn latches_are_independent(
    latches: Map<Seq<char>, Latch>,
    hex: Seq<char>,
    other: Seq<char>,
    cooldown: u128,
    present: Set<Seq<char>>,
    now: u128,
)
    requires
        latches.contains_key(other),
        other != hex,
    ensures
        observed(latches, hex, cooldown, now).contains_key(other),
        observed(latches, hex, cooldown, now)[other] == latches[other],
        present.contains(other) && latches[other].active ==> swept(latches, present, now).contains_key(
            other,
        ) && swept(latches, present, now)[other] == latches[other],
{
}

} // verus!
