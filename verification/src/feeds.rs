//! Feed records and the order in which feeds are tried.
use vstd::arithmetic::power2::pow2;
use vstd::prelude::*;

use crate::config::{Config, Feed};
use crate::double::{key_orders_values, lemma_whole_number, number, Double};
use crate::number::{digits, natural_decimal};
use crate::text::{
    chars_of, join, occurs, replace_all, replaced, replacing_goes_by_occurrence, same_text,
    string_between, text_of,
};

verus! {

/// A reported barometric altitude.
#[derive(Clone, Debug)]
pub enum Altitude {
    /// Feet.
    Feet(Double),
    /// The contact says that it is on the ground.
    Ground,
    /// Anything else, in the notation in which it was received.
    Other(String),
}

/// A reported altitude, over character sequences.
pub ghost enum AltitudeView {
    Feet(Double),
    Ground,
    Other(Seq<char>),
}

/// The view of a reported altitude.
pub open spec fn altitude_view(a: Option<Altitude>) -> Option<AltitudeView> {
    match a {
        Some(Altitude::Feet(x)) => Some(AltitudeView::Feet(x)),
        Some(Altitude::Ground) => Some(AltitudeView::Ground),
        Some(Altitude::Other(s)) => Some(AltitudeView::Other(s@)),
        None => None,
    }
}

/// The altitude that a record reports. `number` is its value where it is a number, `text` its
/// characters where it is a text, and `notation` the way in which it was received.
pub fn reported_altitude(number: Option<Double>, text: Option<&str>, notation: String) -> (r:
    Altitude)
    ensures
        (match r {
            Altitude::Feet(x) => number == Some(x),
            Altitude::Ground => number is None && (text matches Some(t) && t@ == "ground"@),
            Altitude::Other(s) => number is None && !(text matches Some(t) && t@ == "ground"@) && s
                == notation,
        }),
{
    match (number, text) {
        (Some(x), _) => Altitude::Feet(x),
        (None, Some(t)) => if same_text(t, "ground") {
            Altitude::Ground
        } else {
            Altitude::Other(notation)
        },
        (None, None) => Altitude::Other(notation),
    }
}

/// A copy of a reported altitude.
pub fn copy_altitude(a: &Option<Altitude>) -> (r: Option<Altitude>)
    ensures
        r == *a,
{
    match a {
        Some(Altitude::Feet(x)) => Some(Altitude::Feet(*x)),
        Some(Altitude::Ground) => Some(Altitude::Ground),
        Some(Altitude::Other(s)) => Some(Altitude::Other(s.clone())),
        None => None,
    }
}

/// One aircraft record in the shape that all feeds share.
#[derive(Clone, Debug)]
pub struct Aircraft {
    pub hex: String,
    pub flight: Option<String>,
    pub r: Option<String>,
    pub t: Option<String>,
    pub desc: Option<String>,
    pub lat: Option<Double>,
    pub lon: Option<Double>,
    pub alt_baro: Option<Altitude>,
    pub gs: Option<Double>,
    pub track: Option<Double>,
    pub baro_rate: Option<Double>,
    pub squawk: Option<String>,
    pub emergency: Option<String>,
    pub category: Option<String>,
    pub db_flags: Option<u32>,
    pub seen: Option<Double>,
}

/// What a feed delivered.
#[derive(Debug)]
pub struct FeedResponse {
    pub ac: Vec<Aircraft>,
}

/// 0.
pub const ZERO: u64 = 0;

/// 1.
pub const ONE: u64 = 0x3ff0_0000_0000_0000;

/// 60.
pub const SIXTY: u64 = 0x404e_0000_0000_0000;

/// 120.
pub const HUNDRED_TWENTY: u64 = 0x405e_0000_0000_0000;

/// 250.
pub const TWO_HUNDRED_FIFTY: u64 = 0x406f_4000_0000_0000;

/// The order in which `n` feeds are tried: the last good one, then the others in the order of
/// the settings.
pub open spec fn failover_order(last_good: int, n: nat) -> Seq<int> {
    Seq::new(
        n,
        |i: int|
            if i == 0 {
                last_good
            } else if i <= last_good {
                i - 1
            } else {
                i
            },
    )
}

/// Every feed is tried exactly once, the last good one first, the others in the order of the
/// settings.
pub proof fn failover_tries_each_feed_once(last_good: int, n: nat)
    requires
        0 <= last_good < n,
    ensures
        failover_order(last_good, n).len() == n,
        failover_order(last_good, n)[0] == last_good,
        failover_order(last_good, n).no_duplicates(),
        forall|f: int| 0 <= f < n ==> failover_order(last_good, n).contains(f),
        forall|i: int, j: int|
            1 <= i < j < n ==> failover_order(last_good, n)[i] < failover_order(last_good, n)[j],
{
    let order = failover_order(last_good, n);
    assert forall|f: int| 0 <= f < n implies order.contains(f) by {
        if f == last_good {
            assert(order[0] == f);
        } else if f < last_good {
            assert(order[f + 1] == f);
        } else {
            assert(order[f] == f);
        }
    }
}

/// One request to make.
#[derive(Debug)]
pub struct Attempt {
    /// Position of the feed in the settings.
    pub feed: usize,
    pub name: String,
    pub url: String,
}

/// The URL of a point query.
pub open spec fn point_query(
    template: Seq<char>,
    lat: Seq<char>,
    lon: Seq<char>,
    nm: Seq<char>,
) -> Seq<char> {
    replaced(replaced(replaced(template, "{lat}"@, lat), "{lon}"@, lon), "{nm}"@, nm)
}

/// The URL of a squawk query.
pub open spec fn squawk_query(template: Seq<char>, sqk: Seq<char>) -> Seq<char> {
    replaced(template, "{sqk}"@, sqk)
}

/// The request that is made of `feed`.
pub open spec fn is_attempt(a: Attempt, feeds: Seq<Feed>, feed: int, url: Seq<char>) -> bool {
    a.feed == feed && a.name@ == feeds[feed].name@ && a.url@ == url
}

/// A query that is put to one feed after another until one answers.
pub struct Failover {
    attempts: Vec<Attempt>,
    tried: usize,
    last_err: String,
}

impl Failover {
    /// The requests, in the order in which they are made.
    pub closed spec fn attempts(&self) -> Seq<Attempt> {
        self.attempts@
    }

    /// How many of them have failed.
    pub closed spec fn tried(&self) -> nat {
        self.tried as nat
    }

    /// What the query reports if no further request succeeds.
    pub closed spec fn error(&self) -> Seq<char> {
        self.last_err@
    }

    /// No more requests have failed than there are.
    pub closed spec fn wf(&self) -> bool {
        self.tried <= self.attempts@.len()
    }

    /// The request to make next, or `None` where all have failed.
    pub fn next(&self) -> (r: Option<&Attempt>)
        requires
            self.wf(),
        ensures
            (match r {
                Some(a) => self.tried() < self.attempts().len() && *a
                    == self.attempts()[self.tried() as int],
                None => self.tried() == self.attempts().len(),
            }),
    {
        if self.tried < self.attempts.len() {
            Some(&self.attempts[self.tried])
        } else {
            None
        }
    }

    /// Records that the request that was due has failed.
    pub fn fail(&mut self, err: &str)
        requires
            old(self).wf(),
            old(self).tried() < old(self).attempts().len(),
        ensures
            final(self).wf(),
            final(self).attempts() == old(self).attempts(),
            final(self).tried() == old(self).tried() + 1,
            final(self).error() == old(self).attempts()[old(self).tried() as int].name@ + ": "@
                + err@,
    {
        assert(self.tried < self.attempts.len());
        let mut note: String = join(self.attempts[self.tried].name.as_str(), ": ");
        note.append(err);
        self.last_err = note;
        self.tried = self.tried + 1;
    }

    /// What the query reports when every request has failed.
    pub fn into_error(self) -> (r: String)
        ensures
            r@ == self.error(),
    {
        self.last_err
    }
}

/// Remembers which feed answered last.
pub struct FeedClient {
    current: usize,
}

impl FeedClient {
    /// Position of the feed that answered last.
    pub closed spec fn last_good(&self) -> nat {
        self.current as nat
    }

    /// A client to which no feed has answered yet: the first one is tried first.
    pub fn new() -> (r: FeedClient)
        ensures
            r.last_good() == 0,
    {
        FeedClient { current: 0 }
    }

    /// Records that a request was answered.
    pub fn served(&mut self, attempt: &Attempt)
        ensures
            final(self).last_good() == attempt.feed,
    {
        self.current = attempt.feed;
    }

    /// The order in which `n` feeds are tried.
    fn order(&self, n: usize) -> (r: Vec<usize>)
        requires
            n > 0,
        ensures
            r@.len() == n,
            forall|i: int|
                0 <= i < n ==> #[trigger] r@[i] as int == failover_order(
                    self.last_good() as int % n as int,
                    n as nat,
                )[i],
    {
        let start: usize = self.current % n;
        let mut r: Vec<usize> = Vec::new();
        let mut i: usize = 0;
        while i < n
            invariant
                i <= n,
                start < n,
                r@.len() == i,
                forall|j: int|
                    0 <= j < i ==> #[trigger] r@[j] as int == failover_order(start as int, n as nat)[j],
            decreases n - i,
        {
            let f: usize = if i == 0 {
                start
            } else if i <= start {
                i - 1
            } else {
                i
            };
            r.push(f);
            i += 1;
        }
        r
    }

    /// The query for all traffic within `nm` nautical miles of a point. The three numbers are
    /// given in the notation in which they go into the URL.
    pub fn point(&self, cfg: &Config, lat: &str, lon: &str, nm: &str) -> (r: Result<
        Failover,
        String,
    >)
        ensures
            (match r {
                Ok(f) => {
                    let n = cfg.feeds@.len();
                    let order = failover_order(self.last_good() as int % n as int, n);
                    &&& n > 0
                    &&& f.wf()
                    &&& f.tried() == 0
                    &&& f.error() == Seq::<char>::empty()
                    &&& f.attempts().len() == n
                    &&& forall|i: int|
                        0 <= i < n ==> is_attempt(
                            #[trigger] f.attempts()[i],
                            cfg.feeds@,
                            order[i],
                            point_query(cfg.feeds@[order[i]].point_url@, lat@, lon@, nm@),
                        )
                },
                Err(e) => cfg.feeds@.len() == 0 && e@ == "no feeds configured"@,
            }),
    {
        if cfg.feeds.is_empty() {
            return Err("no feeds configured".to_owned());
        }
        let n: usize = cfg.feeds.len();
        let order: Vec<usize> = self.order(n);
        let mut attempts: Vec<Attempt> = Vec::new();
        let mut i: usize = 0;
        let ghost plan = failover_order(self.last_good() as int % n as int, n as nat);
        proof {
            failover_tries_each_feed_once(self.last_good() as int % n as int, n as nat);
        }
        while i < n
            invariant
                n == cfg.feeds@.len(),
                n == order@.len(),
                i <= n,
                attempts@.len() == i,
                plan == failover_order(self.last_good() as int % n as int, n as nat),
                forall|j: int| 0 <= j < n ==> #[trigger] order@[j] as int == plan[j],
                forall|j: int| 0 <= j < n ==> 0 <= #[trigger] order@[j] < n,
                forall|j: int|
                    0 <= j < i ==> is_attempt(
                        #[trigger] attempts@[j],
                        cfg.feeds@,
                        plan[j],
                        point_query(cfg.feeds@[plan[j]].point_url@, lat@, lon@, nm@),
                    ),
            decreases n - i,
        {
            let feed: &Feed = &cfg.feeds[order[i]];
            attempts.push(
                Attempt {
                    feed: order[i],
                    name: feed.name.clone(),
                    url: point_url(feed.point_url.as_str(), lat, lon, nm),
                },
            );
            i += 1;
        }
        Ok(Failover { attempts, tried: 0, last_err: String::new() })
    }

    /// The query for all traffic that wears a squawk.
    pub fn squawk(&self, cfg: &Config, sqk: &str) -> (r: Result<Failover, String>)
        ensures
            (match r {
                Ok(f) => {
                    let n = cfg.feeds@.len();
                    let order = failover_order(self.last_good() as int % n as int, n);
                    &&& n > 0
                    &&& f.wf()
                    &&& f.tried() == 0
                    &&& f.error() == Seq::<char>::empty()
                    &&& f.attempts().len() == n
                    &&& forall|i: int|
                        0 <= i < n ==> is_attempt(
                            #[trigger] f.attempts()[i],
                            cfg.feeds@,
                            order[i],
                            squawk_query(cfg.feeds@[order[i]].sqk_url@, sqk@),
                        )
                },
                Err(e) => cfg.feeds@.len() == 0 && e@ == "no feeds configured"@,
            }),
    {
        if cfg.feeds.is_empty() {
            return Err("no feeds configured".to_owned());
        }
        let n: usize = cfg.feeds.len();
        let order: Vec<usize> = self.order(n);
        let mut attempts: Vec<Attempt> = Vec::new();
        let mut i: usize = 0;
        let ghost plan = failover_order(self.last_good() as int % n as int, n as nat);
        proof {
            failover_tries_each_feed_once(self.last_good() as int % n as int, n as nat);
            reveal_strlit("{sqk}");
        }
        while i < n
            invariant
                n == cfg.feeds@.len(),
                n == order@.len(),
                i <= n,
                attempts@.len() == i,
                "{sqk}"@.len() > 0,
                plan == failover_order(self.last_good() as int % n as int, n as nat),
                forall|j: int| 0 <= j < n ==> #[trigger] order@[j] as int == plan[j],
                forall|j: int| 0 <= j < n ==> 0 <= #[trigger] order@[j] < n,
                forall|j: int|
                    0 <= j < i ==> is_attempt(
                        #[trigger] attempts@[j],
                        cfg.feeds@,
                        plan[j],
                        squawk_query(cfg.feeds@[plan[j]].sqk_url@, sqk@),
                    ),
            decreases n - i,
        {
            let feed: &Feed = &cfg.feeds[order[i]];
            attempts.push(
                Attempt {
                    feed: order[i],
                    name: feed.name.clone(),
                    url: replace_all(feed.sqk_url.as_str(), "{sqk}", sqk),
                },
            );
            i += 1;
        }
        Ok(Failover { attempts, tried: 0, last_err: String::new() })
    }
}

/// The URL of a point query.
fn point_url(template: &str, lat: &str, lon: &str, nm: &str) -> (r: String)
    ensures
        r@ == point_query(template@, lat@, lon@, nm@),
{
    proof {
        reveal_strlit("{lat}");
        reveal_strlit("{lon}");
        reveal_strlit("{nm}");
    }
    let a: String = replace_all(template, "{lat}", lat);
    let b: String = replace_all(a.as_str(), "{lon}", lon);
    replace_all(b.as_str(), "{nm}", nm)
}

/// The status code says that a request succeeded.
pub open spec fn is_success(status: u16) -> bool {
    200 <= status < 300
}

/// The error for a reply whose status is no success, or `None`.
pub fn http_error(status: u16) -> (r: Option<String>)
    ensures
        text_of(r) == (if is_success(status) {
            None
        } else {
            Some("http "@ + digits(status as nat))
        }),
{
    if 200 <= status && status < 300 {
        None
    } else {
        Some(join("http ", natural_decimal(status as u64).as_str()))
    }
}

/// The records that were understood and carry an address, in order.
pub open spec fn usable(records: Seq<Result<Aircraft, String>>) -> Seq<Aircraft>
    decreases records.len(),
{
    if records.len() == 0 {
        Seq::empty()
    } else {
        let rest = usable(records.drop_last());
        match records.last() {
            Ok(a) => if a.hex@.len() > 0 {
                rest.push(a)
            } else {
                rest
            },
            Err(_) => rest,
        }
    }
}

/// The error of the first record that was not understood, empty where all were.
pub open spec fn first_error(records: Seq<Result<Aircraft, String>>) -> Seq<char>
    decreases records.len(),
{
    if records.len() == 0 {
        Seq::empty()
    } else {
        match records[0] {
            Err(e) => e@,
            Ok(_) => first_error(records.skip(1)),
        }
    }
}

/// The first `n` characters of `s`, or all of it where it is shorter.
pub open spec fn head(s: Seq<char>, n: int) -> Seq<char> {
    if s.len() <= n {
        s
    } else {
        s.take(n)
    }
}

/// What a reply body amounts to. `records` is its list of aircraft, each understood or not, and
/// `None` where the body has no such list: an error notice that came with a good status.
pub open spec fn accepted(
    text: Seq<char>,
    records: Option<Seq<Result<Aircraft, String>>>,
) -> Result<Seq<Aircraft>, Seq<char>> {
    match records {
        None => Err("no ac field in response: "@ + head(text, 160)),
        Some(list) => if list.len() > 0 && usable(list).len() == 0 {
            Err(
                "all "@ + digits(list.len()) + " records failed to parse; first error: "@
                    + first_error(list),
            )
        } else {
            Ok(usable(list))
        },
    }
}

/// What a reply body amounts to. One record that was not understood does not spoil the others;
/// an empty list is an empty sky.
pub fn accept(text: &str, records: Option<Vec<Result<Aircraft, String>>>) -> (r: Result<
    FeedResponse,
    String,
>)
    ensures
        (match r {
            Ok(f) => Ok(f.ac@),
            Err(e) => Err(e@),
        }) == accepted(
            text@,
            match records {
                Some(l) => Some(l@),
                None => None,
            },
        ),
{
    match records {
        None => {
            let v: Vec<char> = chars_of(text);
            let n: usize = if v.len() <= 160 {
                v.len()
            } else {
                160
            };
            let start: String = string_between(&v, 0, n);
            assert(start@ == head(text@, 160));
            Err(join("no ac field in response: ", start.as_str()))
        },
        Some(list) => {
            let total: usize = list.len();
            let ghost all = list@;
            let mut first_err: Option<String> = None;
            let mut ac: Vec<Aircraft> = Vec::new();
            assert(all.skip(0) == all);
            for rec in it: list
                invariant
                    it.seq() == all,
                    ac@ == usable(all.take(it.index())),
                    first_error(all) == (match first_err {
                        Some(e) => e@,
                        None => first_error(all.skip(it.index())),
                    }),
            {
                let ghost i = it.index();
                assert(all.take(i + 1).drop_last() == all.take(i));
                assert(all.skip(i).skip(1) == all.skip(i + 1));
                match rec {
                    Ok(a) => {
                        if !a.hex.as_str().is_empty() {
                            ac.push(a);
                        }
                    },
                    Err(e) => {
                        if first_err.is_none() {
                            first_err = Some(e);
                        }
                    },
                }
            }
            assert(all.take(all.len() as int) == all);
            assert(first_error(all.skip(all.len() as int)) == Seq::<char>::empty());
            if total > 0 && ac.is_empty() {
                let mut e: String = join("all ", natural_decimal(total as u64).as_str());
                e.append(" records failed to parse; first error: ");
                if let Some(f) = &first_err {
                    e.append(f.as_str());
                }
                Err(e)
            } else {
                Ok(FeedResponse { ac })
            }
        },
    }
}

/// Recent enough for the disc: heard less than 60 seconds ago, or no age given.
pub open spec fn is_fresh_local(seen: Option<Double>) -> bool {
    seen matches Some(s) ==> s.less(number(SIXTY))
}

/// Recent enough for the emergency sweep: heard no more than 120 seconds ago, or no age given.
pub open spec fn is_fresh_global(seen: Option<Double>) -> bool {
    seen matches Some(s) ==> !number(HUNDRED_TWENTY).less(s)
}

/// Whether a record is recent enough for the disc.
pub fn fresh_local(seen: &Option<Double>) -> (r: bool)
    ensures
        r == is_fresh_local(*seen),
{
    match seen {
        Some(s) => s.lt(&Double { bits: SIXTY }),
        None => true,
    }
}

/// Whether a record is recent enough for the emergency sweep.
pub fn fresh_global(seen: &Option<Double>) -> (r: bool)
    ensures
        r == is_fresh_global(*seen),
{
    match seen {
        Some(s) => !Double { bits: HUNDRED_TWENTY }.lt(s),
        None => true,
    }
}

/// The disc radius that the display reports, never below zero.
pub fn view_radius(km: &Double) -> (r: Double)
    ensures
        r == (if km.is_nan() || !number(ZERO).at_most(*km) {
            number(ZERO)
        } else {
            *km
        }),
        !km.is_nan() ==> r.units() == (if km.units() < 0 {
            0
        } else {
            km.units()
        }),
{
    proof {
        lemma_limits();
    }
    let zero: Double = Double { bits: ZERO };
    if zero.le(km) {
        *km
    } else {
        zero
    }
}

/// The radius that covers both the configured region and the disc.
pub open spec fn covering_radius(regional_nm: Double, view_nm: Double) -> Double {
    if view_nm.is_nan() || view_nm.at_most(regional_nm) {
        regional_nm
    } else {
        view_nm
    }
}

/// The radius that the point query asks for, in nautical miles: enough to cover both the
/// configured region and the disc, but from 1 to 250, the range that the feeds accept.
pub fn query_radius(regional_nm: &Double, view_nm: &Double) -> (r: Double)
    ensures
        r == (if covering_radius(*regional_nm, *view_nm).less(number(ONE)) {
            number(ONE)
        } else if number(TWO_HUNDRED_FIFTY).less(covering_radius(*regional_nm, *view_nm)) {
            number(TWO_HUNDRED_FIFTY)
        } else {
            covering_radius(*regional_nm, *view_nm)
        }),
        !r.is_nan() ==> number(ONE).at_most(r) && r.at_most(
            number(TWO_HUNDRED_FIFTY),
        ),
        !regional_nm.is_nan() && !view_nm.is_nan() ==> !r.is_nan() && ({
            let wide = if regional_nm.units() >= view_nm.units() {
                regional_nm.units()
            } else {
                view_nm.units()
            };
            r.units() == (if wide < pow2(1074) {
                pow2(1074) as int
            } else if wide > 250 * pow2(1074) {
                250 * (pow2(1074) as int)
            } else {
                wide
            })
        }),
{
    let low: Double = Double { bits: ONE };
    let high: Double = Double { bits: TWO_HUNDRED_FIFTY };
    proof {
        key_orders_values(low, high);
        lemma_limits();
    }
    regional_nm.larger(view_nm).clamp(&low, &high)
}

/// The pause between two point queries, in seconds.
pub open spec fn local_pause(poll_local_secs: u64) -> int {
    if poll_local_secs < 2 {
        2
    } else if poll_local_secs > 300 {
        300
    } else {
        poll_local_secs as int
    }
}

/// The length of a squawk sweep, in seconds.
pub open spec fn sweep_secs(poll_sqk_secs: u64) -> int {
    if poll_sqk_secs < 15 {
        15
    } else if poll_sqk_secs > 600 {
        600
    } else {
        poll_sqk_secs as int
    }
}

/// The pause between two squawk queries, in seconds: the sweep is spread over the codes, but no
/// pause is shorter than 5 seconds. With no codes there is only the idle pause of a minute.
pub open spec fn squawk_pause(poll_sqk_secs: u64, codes: nat) -> int {
    if codes == 0 {
        60
    } else if sweep_secs(poll_sqk_secs) / codes as int >= 5 {
        sweep_secs(poll_sqk_secs) / codes as int
    } else {
        5
    }
}

/// The pause between two point queries, in seconds.
pub fn local_pause_secs(poll_local_secs: u64) -> (r: u64)
    ensures
        r == local_pause(poll_local_secs),
{
    if poll_local_secs < 2 {
        2
    } else if poll_local_secs > 300 {
        300
    } else {
        poll_local_secs
    }
}

/// The pause between two squawk queries, in seconds.
pub fn squawk_pause_secs(poll_sqk_secs: u64, codes: usize) -> (r: u64)
    ensures
        r == squawk_pause(poll_sqk_secs, codes as nat),
{
    if codes == 0 {
        return 60;
    }
    let sweep: u64 = if poll_sqk_secs < 15 {
        15
    } else if poll_sqk_secs > 600 {
        600
    } else {
        poll_sqk_secs
    };
    let pause: u64 = sweep / codes as u64;
    if pause >= 5 {
        pause
    } else {
        5
    }
}

/// Both pollers together stay under one request per second to any one feed, whatever the
/// settings: the request rates sum to at most seven in ten seconds.
pub proof fn request_rate_is_bounded(poll_local_secs: u64, poll_sqk_secs: u64, codes: nat)
    ensures
        local_pause(poll_local_secs) >= 2,
        squawk_pause(poll_sqk_secs, codes) >= 5,
        10 * (local_pause(poll_local_secs) + squawk_pause(poll_sqk_secs, codes)) <= 7 * (
        local_pause(poll_local_secs) * squawk_pause(poll_sqk_secs, codes)),
{
    let a = local_pause(poll_local_secs);
    let b = squawk_pause(poll_sqk_secs, codes);
    assert(10 * (a + b) <= 7 * (a * b)) by (nonlinear_arith)
        requires
            a >= 2,
            b >= 5,
    ;
}

/// The squawk queries of one sweep fit into it, as long as 5 seconds per code do.
pub proof fn sweep_holds_its_queries(poll_sqk_secs: u64, codes: nat)
    requires
        codes > 0,
        5 * codes <= sweep_secs(poll_sqk_secs),
    ensures
        squawk_pause(poll_sqk_secs, codes) * codes <= sweep_secs(poll_sqk_secs),
{
    let s = sweep_secs(poll_sqk_secs);
    let c = codes as int;
    assert(s / c >= 5 && (s / c) * c <= s) by (nonlinear_arith)
        requires
            c > 0,
            5 * c <= s,
    ;
}

/// What the whole numbers in the rules are worth.
proof fn lemma_limits()
    ensures
        number(ONE).units() == 1 * pow2(1074),
        number(SIXTY).units() == 60 * pow2(1074),
        number(HUNDRED_TWENTY).units() == 120 * pow2(1074),
        number(TWO_HUNDRED_FIFTY).units() == 250 * pow2(1074),
        number(ZERO).units() == 0,
        !number(ZERO).is_nan() && !number(ONE).is_nan() && !number(SIXTY).is_nan() && !number(
            HUNDRED_TWENTY,
        ).is_nan() && !number(TWO_HUNDRED_FIFTY).is_nan(),
{
    vstd::arithmetic::power2::lemma2_to64();
    vstd::arithmetic::power2::lemma2_to64_rest();
    lemma_whole_number(ONE, 1, 52);
    lemma_whole_number(SIXTY, 60, 47);
    lemma_whole_number(HUNDRED_TWENTY, 120, 46);
    lemma_whole_number(TWO_HUNDRED_FIFTY, 250, 45);
}

/// A record counts for the disc exactly where it has no age or is younger than 60 seconds, and
/// for the emergency sweep exactly where it is not known to be older than 120 seconds.
pub proof fn old_records_are_dropped(seen: Option<Double>)
    ensures
        is_fresh_local(seen) <==> (seen is None || (!seen->0.is_nan() && seen->0.units() < 60 * pow2(
            1074,
        ))),
        is_fresh_global(seen) <==> (seen is None || seen->0.is_nan() || seen->0.units() <= 120
            * pow2(1074)),
{
    lemma_limits();
}

/// The records of a reply are exactly those that were understood and carry an address, in order.
pub proof fn understood_records_are_kept(records: Seq<Result<Aircraft, String>>)
    ensures
        usable(records) == records.filter(
            |r: Result<Aircraft, String>| r is Ok && r->Ok_0.hex@.len() > 0,
        ).map_values(|r: Result<Aircraft, String>| r->Ok_0),
    decreases records.len(),
{
    reveal(Seq::filter);
    let keep = |r: Result<Aircraft, String>| r is Ok && r->Ok_0.hex@.len() > 0;
    let take = |r: Result<Aircraft, String>| r->Ok_0;
    if records.len() > 0 {
        understood_records_are_kept(records.drop_last());
        let rest = records.drop_last().filter(keep);
        if keep(records.last()) {
            assert(rest.push(records.last()).map_values(take) =~= rest.map_values(take).push(
                take(records.last()),
            ));
        }
    }
    assert(usable(records) =~= records.filter(keep).map_values(take));
}

/// A reply is an error exactly where it has no list, or has records of which none is usable; an
/// empty list is an empty sky.
pub proof fn replies_fail_without_a_usable_record(
    text: Seq<char>,
    records: Option<Seq<Result<Aircraft, String>>>,
)
    ensures
        accepted(text, records) is Ok <==> (records matches Some(list) && (list.len() == 0 || (
        exists|i: int|
            0 <= i < list.len() && (#[trigger] list[i]) is Ok && list[i]->Ok_0.hex@.len() > 0))),
{
    if let Some(list) = records {
        lemma_usable_exists(list);
    }
}

proof fn lemma_usable_exists(list: Seq<Result<Aircraft, String>>)
    ensures
        usable(list).len() > 0 <==> (exists|i: int|
            0 <= i < list.len() && (#[trigger] list[i]) is Ok && list[i]->Ok_0.hex@.len() > 0),
    decreases list.len(),
{
    if list.len() > 0 {
        let less = list.drop_last();
        let last = list.len() - 1;
        lemma_usable_exists(less);
        assert forall|i: int| 0 <= i < less.len() implies #[trigger] less[i] == list[i] by {}
        if usable(less).len() > 0 {
            let i = choose|i: int|
                0 <= i < less.len() && (#[trigger] less[i]) is Ok && less[i]->Ok_0.hex@.len() > 0;
            assert(list[i] is Ok);
        } else {
            assert forall|i: int| 0 <= i < last implies !((#[trigger] list[i]) is Ok
                && list[i]->Ok_0.hex@.len() > 0) by {
                assert(less[i] == list[i]);
            }
        }
        if list[last] is Ok && list[last]->Ok_0.hex@.len() > 0 {
            assert(usable(list).len() > 0);
        }
    }
}

/// The error that is reported is that of the first record that was not understood.
pub proof fn first_failure_is_reported(records: Seq<Result<Aircraft, String>>, i: int)
    requires
        0 <= i < records.len(),
        records[i] is Err,
        forall|j: int| 0 <= j < i ==> (#[trigger] records[j]) is Ok,
    ensures
        first_error(records) == records[i]->Err_0@,
    decreases i,
{
    if i > 0 {
        assert(records[0] is Ok);
        let rest = records.skip(1);
        assert forall|j: int| 0 <= j < i - 1 implies (#[trigger] rest[j]) is Ok by {
            assert(rest[j] == records[j + 1]);
        }
        first_failure_is_reported(rest, i - 1);
    }
}

/// The pollers keep to the settings: a local pause from 2 to 300 seconds is taken as it is, and a
/// sweep from 15 to 600 seconds is shared out among its codes, at 5 seconds or more each;
/// anything else is moved to the nearest of these.
pub proof fn pauses_keep_to_the_settings(secs: u64, codes: nat)
    ensures
        2 <= secs <= 300 ==> local_pause(secs) == secs,
        secs < 2 ==> local_pause(secs) == 2,
        secs > 300 ==> local_pause(secs) == 300,
        codes > 0 && 15 <= secs <= 600 && secs as int / codes as int >= 5 ==> squawk_pause(
            secs,
            codes,
        ) == secs as int / codes as int,
        codes > 0 && 15 <= secs <= 600 && secs as int / (codes as int) < 5 ==> squawk_pause(
            secs,
            codes,
        ) == 5,
        secs < 15 ==> squawk_pause(secs, codes) == squawk_pause(15, codes),
        secs > 600 ==> squawk_pause(secs, codes) == squawk_pause(600, codes),
        squawk_pause(secs, 0) == 60,
{
}

/// Only the statuses from 200 to 299 are a success.
pub proof fn success_is_2xx(status: u16)
    ensures
        is_success(status) <==> status / 100 == 2,
{
}

/// The text holds no opening brace.
pub open spec fn plain(s: Seq<char>) -> bool {
    forall|i: int| 0 <= i < s.len() ==> #[trigger] s[i] != '{'
}

proof fn lemma_replace_once(p: Seq<char>, pat: Seq<char>, rest: Seq<char>, to: Seq<char>)
    requires
        plain(p),
        pat.len() > 0,
        pat[0] == '{',
        forall|i: int| 0 <= i < rest.len() ==> !occurs(rest, pat, i),
    ensures
        replaced(p + pat + rest, pat, to) == p + to + rest,
{
    let s = p + pat + rest;
    assert forall|i: int| 0 <= i < p.len() implies !occurs(s, pat, i) by {
        if occurs(s, pat, i) {
            assert(s.subrange(i, i + pat.len())[0] == s[i]);
            assert(s[i] == p[i]);
        }
    }
    assert(s.subrange(p.len() as int, (p.len() + pat.len()) as int) =~= pat);
    assert(occurs(s, pat, p.len() as int));
    replacing_goes_by_occurrence(s, pat, to, p.len() as int);
    assert(s.skip((p.len() + pat.len()) as int) =~= rest);
    assert(s.take(p.len() as int) =~= p);
    replacing_goes_by_occurrence(rest, pat, to, rest.len() as int);
}

proof fn lemma_absent(p: Seq<char>, other: Seq<char>, rest: Seq<char>, pat: Seq<char>)
    requires
        plain(p),
        pat.len() > 2,
        other.len() > 2,
        pat[0] == '{',
        pat[1] != other[1] || pat[2] != other[2],
        forall|i: int| 1 <= i < other.len() ==> #[trigger] other[i] != '{',
        forall|i: int| 0 <= i < rest.len() ==> !occurs(rest, pat, i),
    ensures
        forall|i: int| 0 <= i < (p + other + rest).len() ==> !occurs(p + other + rest, pat, i),
{
    let s = p + other + rest;
    assert forall|i: int| 0 <= i < s.len() implies !occurs(s, pat, i) by {
        if occurs(s, pat, i) {
            let m = s.subrange(i, i + pat.len());
            assert(m[0] == s[i] && m[1] == s[i + 1] && m[2] == s[i + 2]);
            let k = p.len() as int;
            let n = k + other.len();
            if i < k {
                assert(s[i] == p[i]);
            } else if i == k {
                assert(s[i + 1] == other[1] && s[i + 2] == other[2]);
            } else if i < n {
                assert(s[i] == other[i - k]);
            } else {
                assert(rest.subrange(i - n, i - n + pat.len()) =~= m);
                assert(occurs(rest, pat, i - n));
            }
        }
    }
}

proof fn lemma_plain_absent(p: Seq<char>, pat: Seq<char>)
    requires
        plain(p),
        pat.len() > 0,
        pat[0] == '{',
    ensures
        forall|i: int| 0 <= i < p.len() ==> !occurs(p, pat, i),
{
    assert forall|i: int| 0 <= i < p.len() implies !occurs(p, pat, i) by {
        if occurs(p, pat, i) {
            assert(p.subrange(i, i + pat.len())[0] == p[i]);
        }
    }
}

proof fn lemma_plain_joined(a: Seq<char>, b: Seq<char>)
    requires
        plain(a),
        plain(b),
    ensures
        plain(a + b),
{
}

/// A query is its template with each number in its own place: the latitude, the longitude and the
/// radius of a point query, the squawk of a squawk query.
pub proof fn queries_fill_in_their_template(
    a: Seq<char>,
    b: Seq<char>,
    c: Seq<char>,
    d: Seq<char>,
    lat: Seq<char>,
    lon: Seq<char>,
    nm: Seq<char>,
)
    requires
        plain(a) && plain(b) && plain(c) && plain(d),
        plain(lat) && plain(lon) && plain(nm),
    ensures
        point_query(
            a + "{lat}"@ + (b + "{lon}"@ + (c + "{nm}"@ + d)),
            lat,
            lon,
            nm,
        ) == a + lat + b + lon + c + nm + d,
        squawk_query(a + "{sqk}"@ + b, lat) == a + lat + b,
{
    reveal_strlit("{lat}");
    reveal_strlit("{lon}");
    reveal_strlit("{nm}");
    reveal_strlit("{sqk}");
    let (x, y, z) = ("{lat}"@, "{lon}"@, "{nm}"@);
    let tail = c + z + d;
    lemma_plain_absent(d, x);
    lemma_plain_absent(d, y);
    lemma_plain_absent(d, z);
    lemma_absent(c, z, d, x);
    lemma_absent(c, z, d, y);
    lemma_absent(b, y, tail, x);
    lemma_replace_once(a, x, b + y + tail, lat);
    let p = a + lat + b;
    lemma_plain_joined(a, lat);
    lemma_plain_joined(a + lat, b);
    assert(a + lat + (b + y + tail) =~= p + y + tail);
    lemma_replace_once(p, y, tail, lon);
    let q = p + lon + c;
    lemma_plain_joined(p, lon);
    lemma_plain_joined(p + lon, c);
    assert(p + lon + tail =~= q + z + d);
    lemma_replace_once(q, z, d, nm);
    lemma_plain_absent(b, "{sqk}"@);
    lemma_replace_once(a, "{sqk}"@, b, lat);
}

/// What a reply amounts to: its usable records, an empty sky for an empty list, and otherwise an
/// error that quotes what came: up to 160 characters of a reply without a list, and the number of
/// records and the first error of a list without a usable record.
pub proof fn replies_are_records_or_say_why(
    text: Seq<char>,
    records: Option<Seq<Result<Aircraft, String>>>,
)
    ensures
        records is None && text.len() <= 160 ==> accepted(text, records) == Err::<
            Seq<Aircraft>,
            Seq<char>,
        >("no ac field in response: "@ + text),
        records is None && text.len() > 160 ==> accepted(text, records) == Err::<
            Seq<Aircraft>,
            Seq<char>,
        >("no ac field in response: "@ + text.subrange(0, 160)),
        records matches Some(list) ==> {
            let good = list.filter(
                |r: Result<Aircraft, String>| r is Ok && r->Ok_0.hex@.len() > 0,
            ).map_values(|r: Result<Aircraft, String>| r->Ok_0);
            &&& good.len() > 0 || list.len() == 0 ==> accepted(text, records) == Ok::<
                Seq<Aircraft>,
                Seq<char>,
            >(good)
            &&& good.len() == 0 && list.len() > 0 ==> accepted(text, records) == Err::<
                Seq<Aircraft>,
                Seq<char>,
            >(
                "all "@ + digits(list.len()) + " records failed to parse; first error: "@
                    + first_error(list),
            )
        },
{
    if let Some(list) = records {
        understood_records_are_kept(list);
    }
    if text.len() > 160 {
        assert(text.take(160) =~= text.subrange(0, 160));
    }
}

} // verus!
