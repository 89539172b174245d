//! Backup snapshots of the log: their names, and which to delete.
use vstd::prelude::*;

use crate::clock::now_secs;
use crate::number::{decimal, decimal_round_trip, parse_i64, parsed_i64, to_decimal};
use crate::order::{
    arranged, before, key_view, lemma_ranking_len, position_view, rank, ranking, stable_order,
    stable_order_exists,
};
use crate::store::Store;
use crate::text::{
    join, replace_all, replaced, strip_prefix, strip_suffix, stripped, stripped_end, texts_of,
};

verus! {

/// How many snapshots are kept.
pub const SNAPSHOTS_KEPT: usize = 10;

/// The file name of the snapshot taken at a Unix time.
pub open spec fn snapshot_file(secs: int) -> Seq<char> {
    "dex-"@ + decimal(secs) + ".db"@
}

/// The Unix time in the file name of a snapshot, or `None` for any other name.
pub open spec fn snapshot_secs(name: Seq<char>) -> Option<int> {
    match stripped(name, "dex-"@) {
        Some(rest) => match stripped_end(rest, ".db"@) {
            Some(number) => parsed_i64(number),
            None => None,
        },
        None => None,
    }
}

/// The positions of the names that are snapshots, in order.
pub open spec fn snapshots_in(names: Seq<Seq<char>>) -> Seq<int>
    decreases names.len(),
{
    if names.len() == 0 {
        Seq::empty()
    } else if snapshot_secs(names.last()) is Some {
        snapshots_in(names.drop_last()).push(names.len() - 1)
    } else {
        snapshots_in(names.drop_last())
    }
}

/// The positions of the snapshots, newest first, ties in the given order.
pub open spec fn newest_snapshots(names: Seq<Seq<char>>) -> Seq<int> {
    let found = snapshots_in(names);
    arranged(found, ranking(found.map_values(|i: int| -(snapshot_secs(names[i])->0))))
}

/// The positions of the snapshots to delete so that the newest `keep` remain.
pub open spec fn pruned(names: Seq<Seq<char>>, keep: nat) -> Seq<int> {
    let all = newest_snapshots(names);
    if all.len() <= keep {
        Seq::empty()
    } else {
        all.skip(keep as int)
    }
}

/// The Unix time in the file name of a snapshot, or `None` for any other name.
pub fn snapshot_time(name: &str) -> (r: Option<i64>)
    ensures
        (match r {
            Some(t) => snapshot_secs(name@) == Some(t as int),
            None => snapshot_secs(name@) is None,
        }),
{
    match strip_prefix(name, "dex-") {
        Some(rest) => match strip_suffix(rest.as_str(), ".db") {
            Some(number) => parse_i64(number.as_str()),
            None => None,
        },
        None => None,
    }
}

/// The file name of the snapshot taken at a Unix time.
pub fn snapshot_name(secs: i64) -> (r: String)
    ensures
        r@ == snapshot_file(secs as int),
{
    let mut r: String = join("dex-", to_decimal(secs).as_str());
    r.append(".db");
    r
}

/// The file name of a snapshot taken now.
pub fn current_snapshot_name() -> (r: String)
    ensures
        exists|secs: i64| secs >= 0 && r@ == #[trigger] snapshot_file(secs as int),
{
    let secs: i64 = now_secs();
    snapshot_name(secs)
}

/// The statement that writes a snapshot to `path`, with quotes doubled as the literal needs.
pub fn snapshot_statement(path: &str) -> (r: String)
    ensures
        r@ == "VACUUM INTO '"@ + replaced(path@, "'"@, "''"@) + "'"@,
{
    proof {
        reveal_strlit("'");
    }
    let literal: String = replace_all(path, "'", "''");
    let mut r: String = join("VACUUM INTO '", literal.as_str());
    r.append("'");
    r
}

proof fn lemma_snapshots_in(names: Seq<Seq<char>>)
    ensures
        forall|k: int|
            0 <= k < snapshots_in(names).len() ==> 0 <= #[trigger] snapshots_in(names)[k]
                < names.len() && snapshot_secs(names[snapshots_in(names)[k]]) is Some,
        forall|i: int|
            0 <= i < names.len() && snapshot_secs(#[trigger] names[i]) is Some ==> snapshots_in(
                names,
            ).contains(i),
        snapshots_in(names).no_duplicates(),
    decreases names.len(),
{
    if names.len() > 0 {
        let less = names.drop_last();
        let a = snapshots_in(names);
        let b = snapshots_in(less);
        lemma_snapshots_in(less);
        assert forall|k: int| 0 <= k < a.len() implies 0 <= #[trigger] a[k] < names.len()
            && snapshot_secs(names[a[k]]) is Some by {
            if k < b.len() {
                assert(a[k] == b[k]);
                assert(less[b[k]] == names[b[k]]);
            }
        }
        assert forall|i: int|
            0 <= i < names.len() && snapshot_secs(#[trigger] names[i]) is Some implies a.contains(
            i,
        ) by {
            if i < less.len() {
                assert(less[i] == names[i]);
                assert(b.contains(i));
                let k = choose|k: int| 0 <= k < b.len() && b[k] == i;
                assert(a[k] == i);
            } else {
                assert(a[b.len() as int] == i);
            }
        }
        assert forall|x: int, y: int| 0 <= x < a.len() && 0 <= y < a.len() && x != y implies a[x]
            != a[y] by {
            if x < b.len() {
                assert(b[x] < less.len());
            }
            if y < b.len() {
                assert(b[y] < less.len());
            }
        }
    }
}

impl Store {
    /// The positions, among the file names of a backup directory, of the files to delete so that
    /// the newest `keep` snapshots remain.
    pub fn prune(names: &Vec<String>, keep: usize) -> (r: Vec<usize>)
        ensures
            position_view(r@) == pruned(texts_of(names@), keep as nat),
    {
        let ghost all = texts_of(names@);
        let n: usize = names.len();
        let mut found: Vec<usize> = Vec::new();
        let mut keys: Vec<i128> = Vec::new();
        let mut i: usize = 0;
        assert(position_view(found@) =~= snapshots_in(all.take(0)));
        while i < n
            invariant
                n == names@.len(),
                all == texts_of(names@),
                i <= n,
                keys@.len() == found@.len(),
                position_view(found@) == snapshots_in(all.take(i as int)),
                forall|k: int|
                    0 <= k < found@.len() ==> #[trigger] found@[k] < i && keys@[k] == -(
                    snapshot_secs(all[found@[k] as int])->0),
            decreases n - i,
        {
            let ghost before_found = position_view(found@);
            assert(all.take(i + 1).drop_last() == all.take(i as int));
            if let Some(t) = snapshot_time(names[i].as_str()) {
                found.push(i);
                keys.push(-(t as i128));
                assert(position_view(found@) =~= before_found.push(i as int));
            }
            i += 1;
        }
        assert(all.take(n as int) == all);
        let p: Vec<usize> = rank(&keys);
        let ghost fs = snapshots_in(all);
        let ghost wanted = fs.map_values(|i: int| -(snapshot_secs(all[i])->0));
        assert(key_view(keys@) =~= wanted) by {
            assert forall|k: int| 0 <= k < wanted.len() implies key_view(keys@)[k] == wanted[k] by {
                assert(fs[k] == found@[k]);
            }
        }
        let ghost order = position_view(p@);
        let ghost goal = newest_snapshots(all);
        let mut out: Vec<usize> = Vec::new();
        let total: usize = p.len();
        assert(goal.len() == total);
        let mut k: usize = keep;
        while k < total
            invariant
                total == p@.len(),
                total == found@.len(),
                keep <= k,
                fs == position_view(found@),
                order == position_view(p@),
                stable_order(wanted, order),
                wanted.len() == total,
                goal == arranged(fs, order),
                goal.len() == total,
                keep <= total ==> k <= total && position_view(out@) == goal.subrange(
                    keep as int,
                    k as int,
                ),
                keep > total ==> out@.len() == 0,
            decreases total - k,
        {
            assert(0 <= order[k as int] < total);
            let ghost prev = position_view(out@);
            out.push(found[p[k]]);
            assert(position_view(out@) =~= prev.push(goal[k as int]));
            k += 1;
        }
        assert(position_view(out@) =~= pruned(all, keep as nat));
        out
    }
}

/// A snapshot's time can be read back from its file name.
pub proof fn snapshot_name_round_trip(secs: i64)
    ensures
        snapshot_secs(snapshot_file(secs as int)) == Some(secs as int),
{
    reveal_strlit("dex-");
    reveal_strlit(".db");
    let name = snapshot_file(secs as int);
    let number = decimal(secs as int);
    assert("dex-"@.is_prefix_of(name));
    let rest = name.skip(4);
    assert(rest == number + ".db"@);
    assert(rest.subrange(rest.len() - 3, rest.len() as int) == ".db"@);
    assert(".db"@.is_suffix_of(rest));
    assert(rest.take(rest.len() - 3) == number);
    decimal_round_trip(secs);
}

/// Pruning spares every file that is not a snapshot, deletes none twice, keeps the newest `keep`
/// snapshots, and never keeps a snapshot that is older than a deleted one.
pub proof fn pruning_keeps_the_newest(names: Seq<Seq<char>>, keep: nat)
    ensures
        ({
            let gone = pruned(names, keep);
            let all = snapshots_in(names).len();
            &&& gone.len() == (if all > keep {
                all - keep
            } else {
                0
            })
            &&& gone.no_duplicates()
            &&& forall|k: int|
                0 <= k < gone.len() ==> 0 <= #[trigger] gone[k] < names.len() && snapshot_secs(
                    names[gone[k]],
                ) is Some
            &&& forall|k: int, i: int|
                0 <= k < gone.len() && 0 <= i < names.len() && !gone.contains(i) && snapshot_secs(
                    names[i],
                ) is Some ==> #[trigger] snapshot_secs(names[gone[k]])->0 <= #[trigger] snapshot_secs(
                    names[i],
                )->0
        }),
{
    let fs = snapshots_in(names);
    let keys = fs.map_values(|i: int| -(snapshot_secs(names[i])->0));
    let p = ranking(keys);
    stable_order_exists(keys);
    lemma_ranking_len(keys, p);
    lemma_snapshots_in(names);
    let all = newest_snapshots(names);
    let gone = pruned(names, keep);
    assert(all.len() == fs.len());
    assert forall|a: int, b: int| 0 <= a < all.len() && 0 <= b < all.len() && a != b implies all[a]
        != all[b] by {
        assert(p[a] != p[b]);
        assert(fs[p[a]] != fs[p[b]]);
    }
    assert forall|k: int| 0 <= k < gone.len() implies 0 <= #[trigger] gone[k] < names.len()
        && snapshot_secs(names[gone[k]]) is Some by {
        assert(gone[k] == fs[p[k + keep]]);
    }
    assert forall|k: int, i: int|
        0 <= k < gone.len() && 0 <= i < names.len() && !gone.contains(i) && snapshot_secs(
            names[i],
        ) is Some implies #[trigger] snapshot_secs(names[gone[k]])->0 <= #[trigger] snapshot_secs(
        names[i],
    )->0 by {
        assert(fs.contains(i));
        let j = choose|j: int| 0 <= j < fs.len() && fs[j] == i;
        assert(p.contains(j));
        let a = choose|a: int| 0 <= a < p.len() && p[a] == j;
        assert(all[a] == i);
        if a >= keep {
            assert(gone[a - keep] == i);
        }
        assert(before(keys, p[a], p[k + keep]));
        assert(gone[k] == fs[p[k + keep]]);
    }
}

/// A name is that of a snapshot exactly where it is "dex-", a number and ".db"; the time is the
/// number.
pub proof fn snapshot_names_have_one_form(name: Seq<char>, secs: int)
    ensures
        snapshot_secs(name) == Some(secs) <==> exists|number: Seq<char>|
            name == "dex-"@ + number + ".db"@ && #[trigger] parsed_i64(number) == Some(secs),
{
    reveal_strlit("dex-");
    reveal_strlit(".db");
    if snapshot_secs(name) == Some(secs) {
        let rest = name.skip(4);
        let number = rest.take(rest.len() - 3);
        assert("dex-"@.is_prefix_of(name) && ".db"@.is_suffix_of(rest));
        assert(name.subrange(0, 4) =~= "dex-"@);
        assert(rest.subrange(rest.len() - 3, rest.len() as int) =~= ".db"@);
        assert(name =~= "dex-"@ + number + ".db"@) by {
            assert(name =~= name.subrange(0, 4) + rest);
            assert(rest =~= number + rest.subrange(rest.len() - 3, rest.len() as int));
        }
        assert(parsed_i64(number) == Some(secs));
    }
    if exists|number: Seq<char>|
        name == "dex-"@ + number + ".db"@ && #[trigger] parsed_i64(number) == Some(secs) {
        let number = choose|number: Seq<char>|
            name == "dex-"@ + number + ".db"@ && #[trigger] parsed_i64(number) == Some(secs);
        assert("dex-"@.is_prefix_of(name));
        let rest = name.skip(4);
        assert(rest =~= number + ".db"@);
        assert(rest.subrange(rest.len() - 3, rest.len() as int) =~= ".db"@);
        assert(".db"@.is_suffix_of(rest));
        assert(rest.take(rest.len() - 3) =~= number);
    }
}

/// The snapshots among the names are exactly those that can be read as one, in order.
pub proof fn snapshots_are_found_by_name(names: Seq<Seq<char>>, i: int)
    ensures
        snapshots_in(names).contains(i) <==> 0 <= i < names.len() && snapshot_secs(names[i]) is Some,
        SNAPSHOTS_KEPT == 10,
{
    lemma_snapshots_in(names);
    if snapshots_in(names).contains(i) {
        let k = choose|k: int| 0 <= k < snapshots_in(names).len() && snapshots_in(names)[k] == i;
        assert(0 <= snapshots_in(names)[k] < names.len());
    }
}

} // verus!
