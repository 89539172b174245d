//! Stable ordering by integer keys.
use vstd::prelude::*;

verus! {

/// Position `a` comes before position `b` when the positions are ordered by key, ties by
/// position.
pub open spec fn before(keys: Seq<int>, a: int, b: int) -> bool {
    keys[a] < keys[b] || (keys[a] == keys[b] && a < b)
}

/// `p` lists every position of `keys` once, by ascending key, ties in their given order.
pub open spec fn stable_order(keys: Seq<int>, p: Seq<int>) -> bool {
    &&& forall|i: int| 0 <= i < p.len() ==> 0 <= #[trigger] p[i] < keys.len()
    &&& forall|i: int, j: int| 0 <= i < j < p.len() ==> before(keys, #[trigger] p[i], #[trigger] p[j])
    &&& forall|k: int| 0 <= k < keys.len() ==> #[trigger] p.contains(k)
}

/// The positions of `keys` by ascending key, ties in their given order.
pub open spec fn ranking(keys: Seq<int>) -> Seq<int> {
    choose|p: Seq<int>| stable_order(keys, p)
}

/// The elements of `s` at the positions that `p` lists.
pub open spec fn arranged<T>(s: Seq<T>, p: Seq<int>) -> Seq<T> {
    p.map_values(|i: int| s[i])
}

/// There is only one stable order: two lists that are both stable orders of the same keys are
/// the same list.
pub proof fn stable_order_is_unique(keys: Seq<int>, p: Seq<int>, q: Seq<int>)
    requires
        stable_order(keys, p),
        stable_order(keys, q),
    ensures
        p == q,
{
    lemma_common_prefix(keys, p, q, p.len() as int);
    lemma_common_prefix(keys, q, p, q.len() as int);
    assert(p.take(p.len() as int) == p);
    assert(q.take(p.len() as int) == q);
}

proof fn lemma_common_prefix(keys: Seq<int>, p: Seq<int>, q: Seq<int>, n: int)
    requires
        stable_order(keys, p),
        stable_order(keys, q),
        0 <= n <= p.len(),
    ensures
        n <= q.len(),
        p.take(n) == q.take(n),
    decreases n,
{
    if n > 0 {
        lemma_common_prefix(keys, p, q, n - 1);
        let a = p[n - 1];
        assert(q.contains(a));
        let j = choose|j: int| 0 <= j < q.len() && q[j] == a;
        if j < n - 1 {
            assert(p.take(n - 1)[j] == q.take(n - 1)[j]);
            assert(before(keys, p[j], p[n - 1]));
        }
        assert(j >= n - 1);
        let b = q[n - 1];
        assert(p.contains(b));
        let i = choose|i: int| 0 <= i < p.len() && p[i] == b;
        if i < n - 1 {
            assert(p.take(n - 1)[i] == q.take(n - 1)[i]);
            assert(before(keys, q[i], q[n - 1]));
        }
        if j > n - 1 {
            assert(before(keys, q[n - 1], q[j]));
            if i > n - 1 {
                assert(before(keys, p[n - 1], p[i]));
            }
        }
        assert(p.take(n) == p.take(n - 1).push(a));
        assert(q.take(n) == q.take(n - 1).push(b));
    }
}

/// A stable order of `keys` is their ranking.
pub proof fn lemma_ranking(keys: Seq<int>, p: Seq<int>)
    requires
        stable_order(keys, p),
    ensures
        ranking(keys) == p,
{
    stable_order_is_unique(keys, ranking(keys), p);
}

/// A ranking lists exactly the positions, each once.
pub proof fn lemma_ranking_len(keys: Seq<int>, p: Seq<int>)
    requires
        stable_order(keys, p),
    ensures
        p.len() == keys.len(),
        p.no_duplicates(),
{
    assert forall|i: int, j: int| 0 <= i < p.len() && 0 <= j < p.len() && i != j implies p[i]
        != p[j] by {
        if i < j {
            assert(before(keys, p[i], p[j]));
        } else {
            assert(before(keys, p[j], p[i]));
        }
    }
    let all = vstd::set_lib::set_int_range(0, keys.len() as int);
    vstd::set_lib::lemma_int_range(0, keys.len() as int);
    p.unique_seq_to_set();
    assert(p.to_set() =~= all);
}

/// How many of the first `n` listed positions have a key of at most `k`.
proof fn lemma_split_point(keys: Seq<int>, p: Seq<int>, k: int, n: int) -> (at: int)
    requires
        0 <= n <= p.len(),
        forall|i: int, j: int| 0 <= i < j < p.len() ==> before(keys, #[trigger] p[i], #[trigger] p[j]),
    ensures
        0 <= at <= n,
        forall|j: int| 0 <= j < at ==> keys[#[trigger] p[j]] <= k,
        forall|j: int| at <= j < n ==> keys[#[trigger] p[j]] > k,
    decreases n,
{
    if n == 0 {
        0
    } else if keys[p[n - 1]] <= k {
        assert forall|j: int| 0 <= j < n implies keys[#[trigger] p[j]] <= k by {
            if j < n - 1 {
                assert(before(keys, p[j], p[n - 1]));
            }
        }
        n
    } else {
        lemma_split_point(keys, p, k, n - 1)
    }
}

/// Every list of keys has a stable order.
pub proof fn stable_order_exists(keys: Seq<int>)
    ensures
        stable_order(keys, ranking(keys)),
    decreases keys.len(),
{
    if keys.len() == 0 {
        assert(stable_order(keys, Seq::<int>::empty()));
    } else {
        let less = keys.drop_last();
        let last = keys.len() - 1;
        stable_order_exists(less);
        let q = ranking(less);
        assert forall|i: int, j: int| 0 <= i < j < q.len() implies before(
            keys,
            #[trigger] q[i],
            #[trigger] q[j],
        ) by {
            assert(before(less, q[i], q[j]));
        }
        let at = lemma_split_point(keys, q, keys[last], q.len() as int);
        let p = q.insert(at, last);
        assert forall|i: int| 0 <= i < p.len() implies 0 <= #[trigger] p[i] < keys.len() by {
            let o = if i < at { i } else { i - 1 };
            if i != at {
                assert(p[i] == q[o]);
            }
        }
        assert forall|i: int, j: int| 0 <= i < j < p.len() implies before(
            keys,
            #[trigger] p[i],
            #[trigger] p[j],
        ) by {
            let oi = if i < at { i } else { i - 1 };
            let oj = if j < at { j } else { j - 1 };
            if i != at {
                assert(p[i] == q[oi]);
            }
            if j != at {
                assert(p[j] == q[oj]);
            }
        }
        assert forall|k: int| 0 <= k < keys.len() implies #[trigger] p.contains(k) by {
            if k == last {
                assert(p[at] == k);
            } else {
                assert(q.contains(k));
                let i = choose|i: int| 0 <= i < q.len() && q[i] == k;
                if i < at {
                    assert(p[i] == k);
                } else {
                    assert(p[i + 1] == k);
                }
            }
        }
        assert(stable_order(keys, p));
    }
}

/// The view of a list of keys.
pub open spec fn key_view(keys: Seq<i128>) -> Seq<int> {
    keys.map_values(|k: i128| k as int)
}

/// The view of a list of positions.
pub open spec fn position_view(p: Seq<usize>) -> Seq<int> {
    p.map_values(|k: usize| k as int)
}

/// The positions of `keys` by ascending key, ties in their given order.
pub fn rank(keys: &Vec<i128>) -> (p: Vec<usize>)
    ensures
        stable_order(key_view(keys@), position_view(p@)),
        position_view(p@) == ranking(key_view(keys@)),
        p@.len() == keys@.len(),
{
    let n: usize = keys.len();
    let ghost ks = key_view(keys@);
    let mut p: Vec<usize> = Vec::new();
    let mut i: usize = 0;
    while i < n
        invariant
            n == keys@.len(),
            ks == key_view(keys@),
            i <= n,
            p@.len() == i,
            forall|a: int| 0 <= a < p@.len() ==> #[trigger] p@[a] < i,
            forall|a: int, b: int|
                0 <= a < b < p@.len() ==> before(ks, #[trigger] p@[a] as int, #[trigger] p@[b] as int),
            forall|k: usize| k < i ==> #[trigger] p@.contains(k),
        decreases n - i,
    {
        let mut at: usize = i;
        while at > 0 && keys[p[at - 1]] > keys[i]
            invariant
                n == keys@.len(),
                i < n,
                at <= i,
                p@.len() == i,
                forall|a: int| 0 <= a < p@.len() ==> #[trigger] p@[a] < i,
                forall|a: int| at <= a < i ==> keys@[#[trigger] p@[a] as int] > keys@[i as int],
            decreases at,
        {
            at -= 1;
        }
        let ghost old_p = p@;
        proof {
            assert forall|a: int| 0 <= a < at implies before(ks, #[trigger] old_p[a] as int, i as int) by {
                if a < at - 1 {
                    assert(before(ks, old_p[a] as int, old_p[at - 1] as int));
                }
            }
        }
        p.insert(at, i);
        assert forall|k: usize| k < i + 1 implies #[trigger] p@.contains(k) by {
            if k == i {
                assert(p@[at as int] == k);
            } else {
                assert(old_p.contains(k));
                let a = choose|a: int| 0 <= a < old_p.len() && old_p[a] == k;
                if a < at {
                    assert(p@[a] == k);
                } else {
                    assert(p@[a + 1] == k);
                }
            }
        }
        assert forall|a: int, b: int| 0 <= a < b < p@.len() implies before(
            ks,
            #[trigger] p@[a] as int,
            #[trigger] p@[b] as int,
        ) by {
            let a0 = if a < at { a } else { a - 1 };
            let b0 = if b < at { b } else { b - 1 };
            if a != at {
                assert(p@[a] == old_p[a0]);
            }
            if b != at {
                assert(p@[b] == old_p[b0]);
            }
        }
        i += 1;
    }
    proof {
        let pv = position_view(p@);
        assert forall|a: int, b: int| 0 <= a < b < pv.len() implies before(
            ks,
            #[trigger] pv[a],
            #[trigger] pv[b],
        ) by {
            assert(before(ks, p@[a] as int, p@[b] as int));
        }
        assert forall|k: int| 0 <= k < ks.len() implies #[trigger] pv.contains(k) by {
            assert(p@.contains(k as usize));
            let a = choose|a: int| 0 <= a < p@.len() && p@[a] == k as usize;
            assert(pv[a] == k);
        }
        lemma_ranking(ks, pv);
    }
    p
}

} // verus!
