//! Rarity tiers, calibrated on the log's own frequencies.
use vstd::prelude::*;

use crate::order::{
    arranged, before, key_view, lemma_ranking_len, position_view, rank, ranking, stable_order,
    stable_order_exists,
};
use crate::table::Table;

verus! {

/// How rare a type is.
#[derive(Clone, Copy, Debug, PartialEq, Eq, Structural)]
pub enum Rarity {
    Common,
    Uncommon,
    Rare,
    Legendary,
}

impl Rarity {
    /// The position of the tier, from common to legendary.
    pub open spec fn level(self) -> int {
        match self {
            Rarity::Common => 0,
            Rarity::Uncommon => 1,
            Rarity::Rare => 2,
            Rarity::Legendary => 3,
        }
    }

    /// The name of the tier.
    pub open spec fn name(self) -> Seq<char> {
        match self {
            Rarity::Common => "common"@,
            Rarity::Uncommon => "uncommon"@,
            Rarity::Rare => "rare"@,
            Rarity::Legendary => "legendary"@,
        }
    }

    /// The name of the tier.
    pub fn label(&self) -> (r: &'static str)
        ensures
            r@ == self.name(),
    {
        match self {
            Rarity::Common => "common",
            Rarity::Uncommon => "uncommon",
            Rarity::Rare => "rare",
            Rarity::Legendary => "legendary",
        }
    }
}

/// The tier of a type that is not the last in rank, where the busier types make up `before` out
/// of `total`: under 50 percent is common, under 80 percent uncommon, under 95 percent rare, the
/// rest legendary.
pub open spec fn tier_at(before: int, total: int) -> Rarity {
    if 100 * before < 50 * total {
        Rarity::Common
    } else if 100 * before < 80 * total {
        Rarity::Uncommon
    } else if 100 * before < 95 * total {
        Rarity::Rare
    } else {
        Rarity::Legendary
    }
}

/// The sum of the counts.
pub open spec fn count_sum(counts: Seq<(Seq<char>, int)>) -> int
    decreases counts.len(),
{
    if counts.len() == 0 {
        0
    } else {
        count_sum(counts.drop_last()) + counts.last().1
    }
}

/// The counts in descending order, ties in the given order.
pub open spec fn busiest_first(counts: Seq<(Seq<char>, int)>) -> Seq<(Seq<char>, int)> {
    arranged(counts, ranking(counts.map_values(|c: (Seq<char>, int)| -c.1)))
}

/// The tier that a ranking gives to the type at position `i`: the one that the share of all
/// sightings had reached before it. The last type in rank is always legendary.
pub open spec fn tier_of_rank(ranked: Seq<(Seq<char>, int)>, total: int, i: int) -> Rarity {
    if i == ranked.len() - 1 {
        Rarity::Legendary
    } else {
        tier_at(count_sum(ranked.take(i)), total)
    }
}

/// The tiers of the first `n` types, for types that are ranked busiest first.
pub open spec fn tiers(ranked: Seq<(Seq<char>, int)>, total: int, n: int) -> Map<Seq<char>, Rarity>
    decreases n,
{
    if n <= 0 {
        Map::empty()
    } else {
        tiers(ranked, total, n - 1).insert(ranked[n - 1].0, tier_of_rank(ranked, total, n - 1))
    }
}

/// The tier of each type: types are ranked busiest first, and a type falls into the tier that
/// the running share of all sightings has reached before it; the last one is legendary. With
/// nothing seen there are no tiers.
pub open spec fn rarity(counts: Seq<(Seq<char>, int)>) -> Map<Seq<char>, Rarity> {
    if count_sum(counts) == 0 {
        Map::empty()
    } else {
        tiers(busiest_first(counts), count_sum(counts), counts.len() as int)
    }
}

/// No count is negative.
pub open spec fn all_counted(counts: Seq<(Seq<char>, int)>) -> bool {
    forall|i: int| 0 <= i < counts.len() ==> #[trigger] counts[i].1 >= 0
}

/// The view of a list of counts.
pub open spec fn count_view(counts: Seq<(String, i64)>) -> Seq<(Seq<char>, int)> {
    counts.map_values(|c: (String, i64)| (c.0@, c.1 as int))
}

proof fn lemma_sum_grows(counts: Seq<(Seq<char>, int)>, k: int)
    requires
        all_counted(counts),
        0 <= k <= counts.len(),
    ensures
        0 <= count_sum(counts.take(k)) <= count_sum(counts),
    decreases counts.len(),
{
    if k == counts.len() {
        assert(counts.take(k) == counts);
        if counts.len() > 0 {
            lemma_sum_grows(counts.drop_last(), counts.len() - 1);
            assert(counts.drop_last().take(counts.len() - 1) == counts.drop_last());
        }
    } else {
        lemma_sum_grows(counts.drop_last(), k);
        assert(counts.drop_last().take(k) == counts.take(k));
    }
}

/// The sum of the counts at the positions that are listed.
spec fn sum_at(counts: Seq<(Seq<char>, int)>, p: Seq<int>) -> int
    decreases p.len(),
{
    if p.len() == 0 {
        0
    } else {
        sum_at(counts, p.drop_last()) + counts[p.last()].1
    }
}

proof fn lemma_sum_at(counts: Seq<(Seq<char>, int)>, p: Seq<int>)
    ensures
        count_sum(arranged(counts, p)) == sum_at(counts, p),
    decreases p.len(),
{
    if p.len() > 0 {
        lemma_sum_at(counts, p.drop_last());
        assert(arranged(counts, p).drop_last() == arranged(counts, p.drop_last()));
    }
}

proof fn lemma_sum_at_remove(counts: Seq<(Seq<char>, int)>, p: Seq<int>, i: int)
    requires
        0 <= i < p.len(),
    ensures
        sum_at(counts, p) == sum_at(counts, p.remove(i)) + counts[p[i]].1,
    decreases p.len(),
{
    if i == p.len() - 1 {
        assert(p.remove(i) == p.drop_last());
    } else {
        lemma_sum_at_remove(counts, p.drop_last(), i);
        assert(p.remove(i).drop_last() == p.drop_last().remove(i));
        assert(p.remove(i).last() == p.last());
    }
}

/// Listing every position once sums all counts.
proof fn lemma_sum_permuted(counts: Seq<(Seq<char>, int)>, p: Seq<int>)
    requires
        p.len() == counts.len(),
        p.no_duplicates(),
        forall|k: int| 0 <= k < counts.len() ==> p.contains(k),
        forall|i: int| 0 <= i < p.len() ==> 0 <= #[trigger] p[i] < counts.len(),
    ensures
        sum_at(counts, p) == count_sum(counts),
    decreases counts.len(),
{
    if counts.len() > 0 {
        let last = counts.len() - 1;
        assert(p.contains(last));
        let i = choose|i: int| 0 <= i < p.len() && p[i] == last;
        let q = p.remove(i);
        lemma_sum_at_remove(counts, p, i);
        let less = counts.drop_last();
        assert forall|k: int| 0 <= k < less.len() implies q.contains(k) by {
            assert(p.contains(k));
            let j = choose|j: int| 0 <= j < p.len() && p[j] == k;
            if j < i {
                assert(q[j] == k);
            } else {
                assert(q[j - 1] == k);
            }
        }
        assert forall|j: int| 0 <= j < q.len() implies 0 <= #[trigger] q[j] < less.len() by {
            let o = if j < i { j } else { j + 1 };
            assert(q[j] == p[o]);
            assert(p[o] != p[i]);
        }
        assert(q.no_duplicates()) by {
            assert forall|a: int, b: int| 0 <= a < q.len() && 0 <= b < q.len() && a != b implies q[a]
                != q[b] by {
                let oa = if a < i { a } else { a + 1 };
                let ob = if b < i { b } else { b + 1 };
                assert(q[a] == p[oa] && q[b] == p[ob]);
            }
        }
        lemma_sum_permuted(less, q);
        lemma_sum_at_same(counts, less, q);
    }
}

/// Counts add up to the same in every order.
pub proof fn lemma_sum_arranged(counts: Seq<(Seq<char>, int)>, p: Seq<int>)
    requires
        p.len() == counts.len(),
        p.no_duplicates(),
        forall|k: int| 0 <= k < counts.len() ==> p.contains(k),
        forall|i: int| 0 <= i < p.len() ==> 0 <= #[trigger] p[i] < counts.len(),
    ensures
        count_sum(arranged(counts, p)) == count_sum(counts),
{
    lemma_sum_at(counts, p);
    lemma_sum_permuted(counts, p);
}

proof fn lemma_sum_at_same(
    a: Seq<(Seq<char>, int)>,
    b: Seq<(Seq<char>, int)>,
    p: Seq<int>,
)
    requires
        forall|i: int| 0 <= i < p.len() ==> a[#[trigger] p[i]] == b[p[i]],
    ensures
        sum_at(a, p) == sum_at(b, p),
    decreases p.len(),
{
    if p.len() > 0 {
        lemma_sum_at_same(a, b, p.drop_last());
        assert(a[p[p.len() - 1]] == b[p[p.len() - 1]]);
    }
}

proof fn lemma_ranked(counts: Seq<(Seq<char>, int)>, p: Seq<int>)
    requires
        all_counted(counts),
        stable_order(counts.map_values(|c: (Seq<char>, int)| -c.1), p),
    ensures
        count_sum(arranged(counts, p)) == count_sum(counts),
        all_counted(arranged(counts, p)),
{
    let keys = counts.map_values(|c: (Seq<char>, int)| -c.1);
    lemma_ranking_len(keys, p);
    lemma_sum_arranged(counts, p);
}

/// The tier of every known type, from the number of airframes of each.
pub fn rarity_tiers(counts: &Vec<(String, i64)>) -> (r: Table<Rarity>)
    requires
        all_counted(count_view(counts@)),
        count_sum(count_view(counts@)) <= i64::MAX,
    ensures
        r.wf(),
        r@ == rarity(count_view(counts@)),
{
    let ghost cs = count_view(counts@);
    let n: usize = counts.len();
    let mut total: i64 = 0;
    let mut keys: Vec<i128> = Vec::new();
    let mut i: usize = 0;
    while i < n
        invariant
            n == counts@.len(),
            cs == count_view(counts@),
            i <= n,
            all_counted(cs),
            count_sum(cs) <= i64::MAX,
            total == count_sum(cs.take(i as int)),
            0 <= total <= i64::MAX,
            keys@.len() == i,
            forall|j: int| 0 <= j < i ==> #[trigger] keys@[j] == -cs[j].1,
        decreases n - i,
    {
        proof {
            lemma_sum_grows(cs, i + 1);
            assert(cs.take(i + 1).drop_last() == cs.take(i as int));
            assert(cs[i as int].1 == counts@[i as int].1);
        }
        total = total + counts[i].1;
        keys.push(-(counts[i].1 as i128));
        i += 1;
    }
    assert(cs.take(n as int) == cs);
    let mut out: Table<Rarity> = Table::new();
    if total == 0 {
        return out;
    }
    let p: Vec<usize> = rank(&keys);
    let ghost order = position_view(p@);
    let ghost neg = cs.map_values(|c: (Seq<char>, int)| -c.1);
    assert(key_view(keys@) =~= neg);
    let ghost ranked = arranged(cs, order);
    proof {
        lemma_ranked(cs, order);
        assert(ranked == busiest_first(cs));
    }
    let mut running: i64 = 0;
    let mut k: usize = 0;
    assert(ranked.take(0) == Seq::<(Seq<char>, int)>::empty());
    while k < n
        invariant
            n == counts@.len(),
            n == p@.len(),
            cs == count_view(counts@),
            order == position_view(p@),
            ranked == arranged(cs, order),
            ranked.len() == n,
            all_counted(ranked),
            stable_order(neg, order),
            neg.len() == n,
            total == count_sum(cs),
            total == count_sum(ranked),
            0 <= running <= total,
            k <= n,
            running == count_sum(ranked.take(k as int)),
            out.wf(),
            out@ == tiers(ranked, total as int, k as int),
        decreases n - k,
    {
        assert(0 <= order[k as int] < n);
        let at: usize = p[k];
        proof {
            lemma_sum_grows(ranked, k + 1);
            assert(ranked.take(k + 1).drop_last() == ranked.take(k as int));
            assert(ranked[k as int] == cs[at as int]);
        }
        let share: i128 = 100 * running as i128;
        let whole: i128 = total as i128;
        let tier: Rarity = if k == n - 1 {
            Rarity::Legendary
        } else if share < 50 * whole {
            Rarity::Common
        } else if share < 80 * whole {
            Rarity::Uncommon
        } else if share < 95 * whole {
            Rarity::Rare
        } else {
            Rarity::Legendary
        };
        running = running + counts[at].1;
        out.set(counts[at].0.as_str(), tier);
        k += 1;
    }
    out
}

proof fn lemma_tier_of_rank(ranked: Seq<(Seq<char>, int)>, total: int, n: int, i: int)
    requires
        0 <= i < n <= ranked.len(),
        forall|a: int, b: int| 0 <= a < b < ranked.len() ==> ranked[a].0 != ranked[b].0,
    ensures
        tiers(ranked, total, n).contains_key(ranked[i].0),
        tiers(ranked, total, n)[ranked[i].0] == tier_of_rank(ranked, total, i),
    decreases n,
{
    if i < n - 1 {
        lemma_tier_of_rank(ranked, total, n - 1, i);
        assert(ranked[i].0 != ranked[n - 1].0);
    }
}

/// A type is never rarer than one that ranks behind it.
proof fn lemma_tiers_ascend(ranked: Seq<(Seq<char>, int)>, total: int, i: int, j: int)
    requires
        all_counted(ranked),
        0 <= i <= j < ranked.len(),
    ensures
        tier_of_rank(ranked, total, i).level() <= tier_of_rank(ranked, total, j).level(),
{
    let upto = ranked.take(j);
    assert(all_counted(upto)) by {
        assert forall|k: int| 0 <= k < upto.len() implies #[trigger] upto[k].1 >= 0 by {
            assert(upto[k] == ranked[k]);
        }
    }
    lemma_sum_grows(upto, i);
    assert(upto.take(i) == ranked.take(i));
}

/// The ranking of counts with distinct names: it is made of the same counts, its names are
/// distinct, and it shows each type's tier.
proof fn lemma_ranking_shows_tiers(counts: Seq<(Seq<char>, int)>, p: Seq<int>)
    requires
        all_counted(counts),
        forall|i: int, j: int|
            0 <= i < j < counts.len() ==> #[trigger] counts[i].0 != #[trigger] counts[j].0,
        count_sum(counts) > 0,
        p == ranking(counts.map_values(|c: (Seq<char>, int)| -c.1)),
    ensures
        stable_order(counts.map_values(|c: (Seq<char>, int)| -c.1), p),
        p.len() == counts.len(),
        p.no_duplicates(),
        busiest_first(counts) == arranged(counts, p),
        all_counted(busiest_first(counts)),
        count_sum(busiest_first(counts)) == count_sum(counts),
        forall|i: int|
            0 <= i < counts.len() ==> rarity(counts).contains_key(
                (#[trigger] busiest_first(counts)[i]).0,
            ) && rarity(counts)[busiest_first(counts)[i].0] == tier_of_rank(
                busiest_first(counts),
                count_sum(counts),
                i,
            ),
{
    let keys = counts.map_values(|c: (Seq<char>, int)| -c.1);
    stable_order_exists(keys);
    lemma_ranking_len(keys, p);
    lemma_ranked(counts, p);
    let ranked = busiest_first(counts);
    assert forall|x: int, y: int| 0 <= x < y < ranked.len() implies ranked[x].0 != ranked[y].0 by {
        assert(p[x] != p[y]);
        if p[x] < p[y] {
            assert(counts[p[x]].0 != counts[p[y]].0);
        } else {
            assert(counts[p[y]].0 != counts[p[x]].0);
        }
    }
    assert forall|i: int| 0 <= i < counts.len() implies rarity(counts).contains_key(
        (#[trigger] ranked[i]).0,
    ) && rarity(counts)[ranked[i].0] == tier_of_rank(ranked, count_sum(counts), i) by {
        lemma_tier_of_rank(ranked, count_sum(counts), counts.len() as int, i);
    }
}

/// A busier type is never rarer than a less busy one.
pub proof fn busier_is_never_rarer(counts: Seq<(Seq<char>, int)>, a: int, b: int)
    requires
        all_counted(counts),
        forall|i: int, j: int|
            0 <= i < j < counts.len() ==> #[trigger] counts[i].0 != #[trigger] counts[j].0,
        0 <= a < counts.len(),
        0 <= b < counts.len(),
        counts[a].1 > counts[b].1,
    ensures
        rarity(counts).contains_key(counts[a].0),
        rarity(counts).contains_key(counts[b].0),
        rarity(counts)[counts[a].0].level() <= rarity(counts)[counts[b].0].level(),
{
    lemma_sum_grows(counts, a);
    assert(count_sum(counts) > 0) by {
        lemma_sum_grows(counts, a + 1);
        assert(counts.take(a + 1).drop_last() == counts.take(a));
    }
    let keys = counts.map_values(|c: (Seq<char>, int)| -c.1);
    let p = ranking(keys);
    lemma_ranking_shows_tiers(counts, p);
    let ranked = busiest_first(counts);
    assert(p.contains(a) && p.contains(b));
    let i = choose|i: int| 0 <= i < p.len() && p[i] == a;
    let j = choose|j: int| 0 <= j < p.len() && p[j] == b;
    if j < i {
        assert(before(keys, p[j], p[i]));
    }
    assert(i < j);
    lemma_tiers_ascend(ranked, count_sum(counts), i, j);
    assert(ranked[i] == counts[a] && ranked[j] == counts[b]);
}

/// With two or more types, the busiest one is common; the last one in rank is legendary.
pub proof fn busiest_is_common_and_last_legendary(counts: Seq<(Seq<char>, int)>)
    requires
        all_counted(counts),
        forall|i: int, j: int|
            0 <= i < j < counts.len() ==> #[trigger] counts[i].0 != #[trigger] counts[j].0,
        count_sum(counts) > 0,
    ensures
        counts.len() >= 2 ==> rarity(counts)[busiest_first(counts)[0].0] == Rarity::Common,
        rarity(counts)[busiest_first(counts).last().0] == Rarity::Legendary,
{
    lemma_ranking_shows_tiers(counts, ranking(counts.map_values(|c: (Seq<char>, int)| -c.1)));
    let ranked = busiest_first(counts);
    assert(ranked.take(0) == Seq::<(Seq<char>, int)>::empty());
    assert(ranked.last() == ranked[counts.len() - 1]);
    if counts.len() >= 2 {
        assert(tier_of_rank(ranked, count_sum(counts), 0) == Rarity::Common);
        assert(rarity(counts)[ranked[0].0] == Rarity::Common);
    }
}

/// The counts, with those of types above a tier left out as zero.
pub open spec fn up_to_tier(
    counts: Seq<(Seq<char>, int)>,
    tiers: Map<Seq<char>, Rarity>,
    tier: Rarity,
) -> Seq<(Seq<char>, int)> {
    counts.map_values(
        |c: (Seq<char>, int)|
            if tiers[c.0].level() <= tier.level() {
                c
            } else {
                (c.0, 0)
            },
    )
}

/// The share of all sightings that the types up to a tier are to make up, in percent.
pub open spec fn share_limit(tier: Rarity) -> int {
    match tier {
        Rarity::Common => 50,
        Rarity::Uncommon => 80,
        Rarity::Rare => 95,
        Rarity::Legendary => 100,
    }
}

/// How many of the first `n` types in rank are up to a tier.
spec fn cut(ranked: Seq<(Seq<char>, int)>, total: int, tier: Rarity, n: int) -> int
    decreases n,
{
    if n <= 0 {
        0
    } else if tier_of_rank(ranked, total, n - 1).level() <= tier.level() {
        n
    } else {
        cut(ranked, total, tier, n - 1)
    }
}

proof fn lemma_cut(
    ranked: Seq<(Seq<char>, int)>,
    total: int,
    given: Map<Seq<char>, Rarity>,
    tier: Rarity,
    n: int,
)
    requires
        all_counted(ranked),
        0 <= n <= ranked.len(),
        forall|i: int|
            0 <= i < ranked.len() ==> given[(#[trigger] ranked[i]).0] == tier_of_rank(
                ranked,
                total,
                i,
            ),
    ensures
        ({
            let m = cut(ranked, total, tier, n);
            &&& 0 <= m <= n
            &&& m > 0 ==> tier_of_rank(ranked, total, m - 1).level() <= tier.level()
            &&& m < n ==> tier_of_rank(ranked, total, m).level() > tier.level()
            &&& count_sum(up_to_tier(ranked, given, tier).take(n)) == count_sum(ranked.take(m))
        }),
    decreases n,
{
    let all = up_to_tier(ranked, given, tier);
    if n == 0 {
        assert(all.take(0) == ranked.take(0));
    } else {
        lemma_cut(ranked, total, given, tier, n - 1);
        assert(all.take(n).drop_last() == all.take(n - 1));
        assert(ranked.take(n).drop_last() == ranked.take(n - 1));
        assert(given[ranked[n - 1].0] == tier_of_rank(ranked, total, n - 1));
        if n >= 2 {
            lemma_tiers_ascend(ranked, total, n - 2, n - 1);
        }
    }
}

/// The tiers split the traffic as they say. The types up to a tier are the busiest ones, and they
/// make up at least 50 percent of all sightings up to common, 80 percent up to uncommon and 95
/// percent up to rare, unless every type but the last one in rank is among them; without the
/// least busy of them, they make up less.
pub proof fn tiers_split_the_traffic(counts: Seq<(Seq<char>, int)>, tier: Rarity)
    requires
        all_counted(counts),
        forall|i: int, j: int|
            0 <= i < j < counts.len() ==> #[trigger] counts[i].0 != #[trigger] counts[j].0,
        count_sum(counts) > 0,
        tier != Rarity::Legendary,
    ensures
        ({
            let ranked = busiest_first(counts);
            let total = count_sum(counts);
            exists|m: int|
                {
                    &&& 0 <= m < counts.len()
                    &&& count_sum(up_to_tier(counts, rarity(counts), tier)) == count_sum(
                        #[trigger] ranked.take(m),
                    )
                    &&& m < counts.len() - 1 ==> 100 * count_sum(ranked.take(m)) >= share_limit(
                        tier,
                    ) * total
                    &&& m > 0 ==> 100 * count_sum(ranked.take(m - 1)) < share_limit(tier) * total
                }
        }),
        ({
            let kept = count_sum(up_to_tier(counts, rarity(counts), tier));
            ||| 100 * kept >= share_limit(tier) * count_sum(counts)
            ||| kept + busiest_first(counts).last().1 == count_sum(counts)
        }),
{
    let p = ranking(counts.map_values(|c: (Seq<char>, int)| -c.1));
    lemma_ranking_shows_tiers(counts, p);
    let ranked = busiest_first(counts);
    let total = count_sum(counts);
    let given = rarity(counts);
    let n = counts.len() as int;
    lemma_cut(ranked, total, given, tier, n);
    let kept = up_to_tier(counts, given, tier);
    lemma_sum_arranged(kept, p);
    assert(arranged(kept, p) =~= up_to_tier(ranked, given, tier));
    assert(up_to_tier(ranked, given, tier).take(n) =~= up_to_tier(ranked, given, tier));
    let m = cut(ranked, total, tier, n);
    assert(count_sum(kept) == count_sum(ranked.take(m)));
    assert(n > 0);
    assert(m < n) by {
        assert(tier_of_rank(ranked, total, n - 1) == Rarity::Legendary);
    }
    assert(ranked.take(n).drop_last() == ranked.take(n - 1));
    assert(ranked.take(n) == ranked);
}

/// The type at `k` is seen more often than that at `a`, or as often and comes before it.
pub open spec fn ranks_ahead(counts: Seq<(Seq<char>, int)>, k: int, a: int) -> bool {
    counts[k].1 > counts[a].1 || (counts[k].1 == counts[a].1 && k < a)
}

/// The counts, with those of types that do not rank ahead of the one at `a` left out as zero.
pub open spec fn ahead_of(counts: Seq<(Seq<char>, int)>, a: int) -> Seq<(Seq<char>, int)> {
    Seq::new(
        counts.len(),
        |k: int|
            if ranks_ahead(counts, k, a) {
                counts[k]
            } else {
                (counts[k].0, 0)
            },
    )
}

proof fn lemma_zeros_add_nothing(a: Seq<(Seq<char>, int)>, b: Seq<(Seq<char>, int)>, i: int)
    requires
        0 <= i <= a.len(),
        a.len() <= b.len(),
        forall|x: int| 0 <= x < i ==> (#[trigger] a[x]).1 == b[x].1,
        forall|x: int| i <= x < a.len() ==> (#[trigger] a[x]).1 == 0,
    ensures
        count_sum(a) == count_sum(b.take(i)),
    decreases a.len(),
{
    if a.len() > 0 {
        let last = a.len() - 1;
        if i < a.len() {
            lemma_zeros_add_nothing(a.drop_last(), b, i);
            assert(a[last].1 == 0);
        } else {
            lemma_zeros_add_nothing(a.drop_last(), b, i - 1);
            assert(b.take(i).drop_last() == b.take(i - 1));
            assert(a[last].1 == b[last].1);
        }
    }
}

/// The types that rank ahead of another are those before it in the ranking.
proof fn lemma_ahead(counts: Seq<(Seq<char>, int)>, p: Seq<int>, i: int)
    requires
        stable_order(counts.map_values(|c: (Seq<char>, int)| -c.1), p),
        0 <= i < p.len(),
    ensures
        p.len() == counts.len(),
        forall|x: int|
            0 <= x < p.len() && x != i ==> (ranks_ahead(counts, #[trigger] p[x], p[i]) <==> x < i),
        count_sum(ahead_of(counts, p[i])) == count_sum(arranged(counts, p).take(i)),
{
    let keys = counts.map_values(|c: (Seq<char>, int)| -c.1);
    lemma_ranking_len(keys, p);
    let a = p[i];
    let masked = ahead_of(counts, a);
    let ranked = arranged(counts, p);
    let shown = arranged(masked, p);
    assert forall|x: int| 0 <= x < p.len() && x != i implies (ranks_ahead(counts, #[trigger] p[x], a)
        <==> x < i) by {
        if x < i {
            assert(before(keys, p[x], p[i]));
        } else {
            assert(before(keys, p[i], p[x]));
        }
    }
    assert forall|x: int| 0 <= x < i implies (#[trigger] shown[x]).1 == ranked[x].1 by {
        assert(ranks_ahead(counts, p[x], a));
    }
    assert forall|x: int| i <= x < shown.len() implies (#[trigger] shown[x]).1 == 0 by {
        if x > i {
            assert(!ranks_ahead(counts, p[x], a));
        }
    }
    lemma_zeros_add_nothing(shown, ranked, i);
    lemma_sum_arranged(masked, p);
}

/// The tier of a type follows from the share of all sightings that the types ahead of it make up:
/// common under 50 percent, uncommon from 50 and under 80, rare from 80 and under 95, legendary
/// from 95 on. The type that every other one ranks ahead of is legendary whatever its share.
pub proof fn tiers_go_by_the_share_ahead(counts: Seq<(Seq<char>, int)>, a: int)
    requires
        all_counted(counts),
        forall|i: int, j: int|
            0 <= i < j < counts.len() ==> #[trigger] counts[i].0 != #[trigger] counts[j].0,
        count_sum(counts) > 0,
        0 <= a < counts.len(),
    ensures
        rarity(counts).contains_key(counts[a].0),
        ({
            let last = forall|k: int|
                0 <= k < counts.len() && k != a ==> #[trigger] ranks_ahead(counts, k, a);
            let name = rarity(counts)[counts[a].0].name();
            let share = 100 * count_sum(ahead_of(counts, a));
            let total = count_sum(counts);
            &&& last ==> name == "legendary"@
            &&& !last && share < 50 * total ==> name == "common"@
            &&& !last && 50 * total <= share < 80 * total ==> name == "uncommon"@
            &&& !last && 80 * total <= share < 95 * total ==> name == "rare"@
            &&& !last && 95 * total <= share ==> name == "legendary"@
        }),
{
    let keys = counts.map_values(|c: (Seq<char>, int)| -c.1);
    let p = ranking(keys);
    lemma_ranking_shows_tiers(counts, p);
    assert(p.contains(a));
    let i = choose|i: int| 0 <= i < p.len() && p[i] == a;
    lemma_ahead(counts, p, i);
    assert(busiest_first(counts)[i] == counts[a]);
    if i == counts.len() - 1 {
        assert forall|k: int| 0 <= k < counts.len() && k != a implies #[trigger] ranks_ahead(
            counts,
            k,
            a,
        ) by {
            assert(p.contains(k));
            let x = choose|x: int| 0 <= x < p.len() && p[x] == k;
            assert(ranks_ahead(counts, p[x], p[i]));
        }
    } else {
        assert(p[i + 1] != p[i]);
        assert(0 <= p[i + 1] < counts.len());
        assert(!ranks_ahead(counts, p[i + 1], p[i]));
    }
}

/// The sum of counts is made of each of them: it is theirs where there is one, and that of two
/// lists together is the sum of both.
pub proof fn counts_add_up(a: Seq<(Seq<char>, int)>, b: Seq<(Seq<char>, int)>)
    ensures
        count_sum(a + b) == count_sum(a) + count_sum(b),
        a.len() == 1 ==> count_sum(a) == a[0].1,
    decreases b.len(),
{
    reveal_with_fuel(count_sum, 2);
    if b.len() == 0 {
        assert(a + b =~= a);
    } else {
        counts_add_up(a, b.drop_last());
        assert((a + b).drop_last() =~= a + b.drop_last());
    }
}

/// Only types that were counted have a tier.
pub proof fn tiers_are_for_counted_types(counts: Seq<(Seq<char>, int)>, t: Seq<char>)
    requires
        rarity(counts).contains_key(t),
    ensures
        exists|k: int| 0 <= k < counts.len() && (#[trigger] counts[k]).0 == t,
{
    let keys = counts.map_values(|c: (Seq<char>, int)| -c.1);
    let p = ranking(keys);
    stable_order_exists(keys);
    lemma_ranking_len(keys, p);
    let ranked = busiest_first(counts);
    let i = lemma_tier_has_rank(ranked, count_sum(counts), counts.len() as int, t);
    assert(counts[p[i]].0 == t);
}

proof fn lemma_tier_has_rank(
    ranked: Seq<(Seq<char>, int)>,
    total: int,
    n: int,
    t: Seq<char>,
) -> (i: int)
    requires
        tiers(ranked, total, n).contains_key(t),
    ensures
        0 <= i < n,
        ranked[i].0 == t,
    decreases n,
{
    if n > 0 && ranked[n - 1].0 != t {
        lemma_tier_has_rank(ranked, total, n - 1, t)
    } else {
        n - 1
    }
}

} // verus!
