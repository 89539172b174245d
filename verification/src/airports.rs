//! The airport next to an aircraft on the ground.
use vstd::arithmetic::power2::pow2;
use vstd::prelude::*;

use crate::double::{lemma_whole_number, number, Double};
use crate::text::{chars_of, string_of, texts_of};

verus! {

/// How far from an airport an aircraft on the ground may be to be tagged with it: 10 km.
pub const TAG_KM: u64 = 0x4024_0000_0000_0000;

/// An airport.
#[derive(Clone, Debug)]
pub struct Airport {
    pub code: String,
    pub name: String,
    pub lat: Double,
    pub lon: Double,
}

/// The fields of one line of the airport list. The position is still in decimal notation.
#[derive(Clone, Debug)]
pub struct AirportLine {
    pub code: String,
    pub name: String,
    pub lat: String,
    pub lon: String,
}

/// The parts of a text between separators. There is always one more part than separators.
pub open spec fn parts(s: Seq<char>, separator: char) -> Seq<Seq<char>>
    decreases s.len(),
{
    if s.len() == 0 {
        seq![Seq::empty()]
    } else {
        let rest = parts(s.drop_last(), separator);
        if s.last() == separator {
            rest.push(Seq::empty())
        } else {
            rest.drop_last().push(rest.last().push(s.last()))
        }
    }
}

/// A line without the carriage return at its end.
pub open spec fn without_return(line: Seq<char>) -> Seq<char> {
    if line.len() > 0 && line.last() == '\r' {
        line.drop_last()
    } else {
        line
    }
}

/// The lines of a text. A line ends with a line feed, or a carriage return and a line feed; what
/// follows the last line feed is a line where it is not empty.
pub open spec fn text_lines(s: Seq<char>) -> Seq<Seq<char>> {
    let all = parts(s, '\n');
    let ended = all.drop_last().map_values(|line: Seq<char>| without_return(line));
    if all.last().len() > 0 {
        ended.push(all.last())
    } else {
        ended
    }
}

/// A line of the airport list has its four fields.
pub open spec fn is_airport_line(line: Seq<char>) -> bool {
    parts(line, '|').len() >= 4
}

/// The parts of a text between separators.
pub fn split(s: &str, separator: char) -> (r: Vec<String>)
    ensures
        texts_of(r@) == parts(s@, separator),
        r@.len() > 0,
{
    let all: Vec<char> = chars_of(s);
    let n: usize = all.len();
    let mut done: Vec<String> = Vec::new();
    let mut part: Vec<char> = Vec::new();
    let mut i: usize = 0;
    assert(all@.take(0) == Seq::<char>::empty());
    assert(texts_of(done@).push(part@) =~= seq![Seq::<char>::empty()]);
    while i < n
        invariant
            n == all@.len(),
            all@ == s@,
            i <= n,
            texts_of(done@).push(part@) == parts(all@.take(i as int), separator),
        decreases n - i,
    {
        assert(all@.take(i + 1).drop_last() == all@.take(i as int));
        let ghost rest = parts(all@.take(i as int), separator);
        let ghost before = texts_of(done@);
        assert(rest.last() == part@ && rest.drop_last() =~= before);
        if all[i] == separator {
            let text: String = string_of(&part);
            done.push(text);
            part = Vec::new();
            assert(texts_of(done@) =~= before.push(text@));
            assert(texts_of(done@).push(part@) =~= rest.push(Seq::empty()));
        } else {
            part.push(all[i]);
        }
        i += 1;
    }
    assert(all@.take(n as int) == s@);
    let ghost before = texts_of(done@);
    let text: String = string_of(&part);
    done.push(text);
    assert(texts_of(done@) =~= before.push(text@));
    done
}

fn strip_return(line: &str) -> (r: String)
    ensures
        r@ == without_return(line@),
{
    let mut v: Vec<char> = chars_of(line);
    if v.len() > 0 && v[v.len() - 1] == '\r' {
        v.pop();
    }
    string_of(&v)
}

/// The lines of a text.
pub fn lines(s: &str) -> (r: Vec<String>)
    ensures
        texts_of(r@) == text_lines(s@),
{
    let all: Vec<String> = split(s, '\n');
    let last: usize = all.len() - 1;
    let ghost every = texts_of(all@);
    let ghost ended = every.drop_last().map_values(|line: Seq<char>| without_return(line));
    let mut r: Vec<String> = Vec::new();
    let mut i: usize = 0;
    while i < last
        invariant
            last + 1 == all@.len(),
            i <= last,
            every == texts_of(all@),
            ended == every.drop_last().map_values(|line: Seq<char>| without_return(line)),
            texts_of(r@) == ended.take(i as int),
        decreases last - i,
    {
        let ghost before = texts_of(r@);
        let line: String = strip_return(all[i].as_str());
        r.push(line);
        assert(texts_of(r@) =~= before.push(line@));
        assert(ended[i as int] == line@);
        i += 1;
    }
    assert(ended.take(last as int) =~= ended);
    if !all[last].as_str().is_empty() {
        r.push(all[last].clone());
        assert(texts_of(r@) =~= ended.push(every.last()));
    }
    r
}

/// The fields of one line `code|name|lat|lon` of the airport list, or `None` where there are
/// fewer than four. Further fields are ignored.
pub fn read_airport(line: &str) -> (r: Option<AirportLine>)
    ensures
        r is Some == is_airport_line(line@),
        r matches Some(a) ==> {
            &&& a.code@ == parts(line@, '|')[0]
            &&& a.name@ == parts(line@, '|')[1]
            &&& a.lat@ == parts(line@, '|')[2]
            &&& a.lon@ == parts(line@, '|')[3]
        },
{
    let f: Vec<String> = split(line, '|');
    if f.len() < 4 {
        return None;
    }
    let ghost all = texts_of(f@);
    assert(all[0] == f@[0]@ && all[1] == f@[1]@ && all[2] == f@[2]@ && all[3] == f@[3]@);
    Some(
        AirportLine {
            code: f[0].clone(),
            name: f[1].clone(),
            lat: f[2].clone(),
            lon: f[3].clone(),
        },
    )
}

/// How far an airport is from a position.
#[derive(Clone, Copy, Debug)]
pub struct Reach {
    /// The difference in latitude alone.
    pub lat_gap_km: Double,
    /// The distance.
    pub dst_km: Double,
}

impl Reach {
    /// The airport is within `max_km`.
    pub open spec fn within(self, max_km: Double) -> bool {
        !max_km.less(self.lat_gap_km) && self.dst_km.at_most(max_km)
    }
}

/// The airport at `i` is the nearest one within `max_km`, the first of those that are equally
/// near.
pub open spec fn is_nearest(reach: Seq<Reach>, max_km: Double, i: int) -> bool {
    &&& 0 <= i < reach.len()
    &&& reach[i].within(max_km)
    &&& forall|j: int|
        0 <= j < reach.len() && (#[trigger] reach[j]).within(max_km) ==> reach[i].dst_km.at_most(
            reach[j].dst_km,
        )
    &&& forall|j: int|
        0 <= j < i && (#[trigger] reach[j]).within(max_km) ==> reach[i].dst_km.less(reach[j].dst_km)
}

/// The position in the list of the nearest airport within `max_km`, or `None` where none is. The
/// first one counts where several are equally near.
pub fn nearest(reach: &Vec<Reach>, max_km: &Double) -> (r: Option<usize>)
    ensures
        (match r {
            Some(i) => is_nearest(reach@, *max_km, i as int),
            None => forall|j: int|
                0 <= j < reach@.len() ==> !(#[trigger] reach@[j]).within(*max_km),
        }),
{
    let mut best: Option<usize> = None;
    let n: usize = reach.len();
    let mut i: usize = 0;
    while i < n
        invariant
            n == reach@.len(),
            i <= n,
            (match best {
                Some(b) => is_nearest(reach@.take(i as int), *max_km, b as int),
                None => forall|j: int|
                    0 <= j < i ==> !(#[trigger] reach@[j]).within(*max_km),
            }),
        decreases n - i,
    {
        let ghost seen = reach@.take(i as int);
        let ghost now = reach@.take(i + 1);
        assert(forall|j: int| 0 <= j < i ==> seen[j] == #[trigger] reach@[j]);
        assert(forall|j: int| 0 <= j <= i ==> #[trigger] now[j] == reach@[j]);
        let c: Reach = reach[i];
        if !max_km.lt(&c.lat_gap_km) && c.dst_km.le(max_km) {
            best = match best {
                None => Some(i),
                Some(b) => if c.dst_km.lt(&reach[b].dst_km) {
                    Some(i)
                } else {
                    Some(b)
                },
            };
        }
        i += 1;
    }
    assert(reach@.take(n as int) == reach@);
    best
}

/// There is at most one nearest airport.
pub proof fn nearest_is_unique(reach: Seq<Reach>, max_km: Double, i: int, j: int)
    requires
        is_nearest(reach, max_km, i),
        is_nearest(reach, max_km, j),
    ensures
        i == j,
{
    assert(reach[i].within(max_km) && reach[j].within(max_km));
}

/// Texts with a separator between each two.
pub open spec fn joined(texts: Seq<Seq<char>>, separator: char) -> Seq<char>
    decreases texts.len(),
{
    if texts.len() == 0 {
        Seq::empty()
    } else if texts.len() == 1 {
        texts[0]
    } else {
        joined(texts.drop_last(), separator).push(separator) + texts.last()
    }
}

/// Splitting and joining undo each other: the parts of a text, put together with the separator,
/// are the text, none of them holds the separator, and there is one more of them than there are
/// separators.
pub proof fn parts_make_up_the_text(s: Seq<char>, separator: char)
    ensures
        joined(parts(s, separator), separator) == s,
        parts(s, separator).len() == s.filter(|c: char| c == separator).len() + 1,
        forall|i: int|
            0 <= i < parts(s, separator).len() ==> !(#[trigger] parts(s, separator)[i]).contains(
                separator,
            ),
    decreases s.len(),
{
    reveal(Seq::filter);
    reveal_with_fuel(joined, 2);
    let all = parts(s, separator);
    if s.len() == 0 {
        assert(joined(all, separator) =~= s);
    } else {
        let less = s.drop_last();
        let rest = parts(less, separator);
        parts_make_up_the_text(less, separator);
        if s.last() == separator {
            assert(all.drop_last() =~= rest);
            assert(joined(all, separator) =~= less.push(separator));
            assert forall|i: int| 0 <= i < all.len() implies !(#[trigger] all[i]).contains(
                separator,
            ) by {
                if i < rest.len() {
                    assert(all[i] == rest[i]);
                }
            }
        } else {
            assert(all.drop_last() =~= rest.drop_last());
            assert(all.last() == rest.last().push(s.last()));
            if rest.len() == 1 {
                assert(rest[0] == rest.last());
                assert(joined(all, separator) =~= less.push(s.last()));
            } else {
                assert(joined(all, separator) =~= joined(rest, separator).push(s.last()));
            }
            assert forall|i: int| 0 <= i < all.len() implies !(#[trigger] all[i]).contains(
                separator,
            ) by {
                if i < rest.len() - 1 {
                    assert(all[i] == rest[i]);
                } else {
                    let p = rest[i];
                    assert(!rest[i].contains(separator));
                    if all[i].contains(separator) {
                        let k = choose|k: int| 0 <= k < all[i].len() && all[i][k] == separator;
                        if k < p.len() {
                            assert(p[k] == separator);
                        }
                    }
                }
            }
        }
        assert(s =~= less.push(s.last()));
    }
}

proof fn lemma_parts_longer(s: Seq<char>, t: Seq<char>, separator: char)
    requires
        !t.contains(separator),
    ensures
        parts(s + t, separator) == parts(s, separator).drop_last().push(
            parts(s, separator).last() + t,
        ),
        parts(s, separator).len() > 0,
    decreases t.len(),
{
    parts_make_up_the_text(s, separator);
    let all = parts(s, separator);
    if t.len() == 0 {
        assert(s + t =~= s);
        assert(all.last() + t =~= all.last());
        assert(all.drop_last().push(all.last()) =~= all);
    } else {
        let u = t.drop_last();
        assert(!u.contains(separator)) by {
            if u.contains(separator) {
                let k = choose|k: int| 0 <= k < u.len() && u[k] == separator;
                assert(t[k] == separator);
            }
        }
        lemma_parts_longer(s, u, separator);
        assert((s + t).drop_last() =~= s + u);
        assert(t[t.len() - 1] == t.last());
        assert(t.last() != separator);
        let less = parts(s + u, separator);
        assert(less.drop_last() =~= all.drop_last());
        assert((all.last() + u).push(t.last()) =~= all.last() + t);
    }
}

/// Lines, each with its ending.
pub open spec fn written(lines: Seq<Seq<char>>, ending: Seq<char>) -> Seq<char>
    decreases lines.len(),
{
    if lines.len() == 0 {
        Seq::empty()
    } else {
        written(lines.drop_last(), ending) + lines.last() + ending
    }
}

proof fn lemma_written(all: Seq<Seq<char>>, ending: Seq<char>, cr: Seq<char>)
    requires
        ending == cr.push('\n'),
        !cr.contains('\n'),
        forall|i: int| 0 <= i < all.len() ==> !(#[trigger] all[i]).contains('\n'),
    ensures
        parts(written(all, ending), '\n') == all.map_values(|l: Seq<char>| l + cr).push(
            Seq::empty(),
        ),
    decreases all.len(),
{
    let f = |l: Seq<char>| l + cr;
    if all.len() == 0 {
        assert(parts(written(all, ending), '\n') =~= all.map_values(f).push(Seq::empty()));
    } else {
        let less = all.drop_last();
        let last = all.last();
        assert forall|i: int| 0 <= i < less.len() implies !(#[trigger] less[i]).contains('\n') by {
            assert(less[i] == all[i]);
        }
        assert(!all[all.len() - 1].contains('\n'));
        lemma_written(less, ending, cr);
        let t = last + cr;
        assert(!t.contains('\n')) by {
            if t.contains('\n') {
                let k = choose|k: int| 0 <= k < t.len() && t[k] == '\n';
                if k < last.len() {
                    assert(last[k] == '\n');
                } else {
                    assert(cr[k - last.len()] == '\n');
                }
            }
        }
        let head = written(less, ending);
        lemma_parts_longer(head, t, '\n');
        let s = written(all, ending);
        assert(s.drop_last() =~= head + t);
        assert(s.last() == '\n');
        let before = less.map_values(f);
        assert(parts(head, '\n').drop_last() =~= before);
        assert(parts(head, '\n').last() =~= Seq::<char>::empty());
        assert(Seq::<char>::empty() + t =~= t);
        assert(parts(s, '\n') =~= before.push(t).push(Seq::empty()));
        assert(all.map_values(f) =~= before.push(t));
    }
}

/// Lines read back as they were written, whether each ends with a line feed or with a carriage
/// return and a line feed, as long as no line holds an ending of its own. What follows the last
/// ending is one more line where it is not empty.
pub proof fn lines_read_back(all: Seq<Seq<char>>, tail: Seq<char>)
    requires
        forall|i: int|
            0 <= i < all.len() ==> !(#[trigger] all[i]).contains('\n') && (all[i].len() > 0
                ==> all[i].last() != '\r'),
        !tail.contains('\n'),
    ensures
        text_lines(written(all, seq!['\n']) + tail) == (if tail.len() > 0 {
            all.push(tail)
        } else {
            all
        }),
        text_lines(written(all, seq!['\r', '\n']) + tail) == (if tail.len() > 0 {
            all.push(tail)
        } else {
            all
        }),
{
    let none = Seq::<char>::empty();
    let cr = seq!['\r'];
    assert(seq!['\n'] =~= none.push('\n'));
    assert(seq!['\r', '\n'] =~= cr.push('\n'));
    assert(!none.contains('\n'));
    assert(!cr.contains('\n'));
    lemma_written(all, seq!['\n'], none);
    lemma_written(all, seq!['\r', '\n'], cr);
    lemma_parts_longer(written(all, seq!['\n']), tail, '\n');
    lemma_parts_longer(written(all, seq!['\r', '\n']), tail, '\n');
    assert(none + tail =~= tail);
    let f = |l: Seq<char>| l + none;
    let g = |l: Seq<char>| l + cr;
    let strip = |line: Seq<char>| without_return(line);
    assert(all.map_values(f).push(none).drop_last() =~= all.map_values(f));
    assert(all.map_values(g).push(none).drop_last() =~= all.map_values(g));
    assert(all.map_values(f).push(tail).drop_last() =~= all.map_values(f));
    assert(all.map_values(g).push(tail).drop_last() =~= all.map_values(g));
    assert(all.map_values(f).map_values(strip) =~= all) by {
        assert forall|i: int| 0 <= i < all.len() implies all.map_values(f).map_values(strip)[i]
            == #[trigger] all[i] by {
            assert(all[i] + none =~= all[i]);
        }
    }
    assert(all.map_values(g).map_values(strip) =~= all) by {
        assert forall|i: int| 0 <= i < all.len() implies all.map_values(g).map_values(strip)[i]
            == #[trigger] all[i] by {
            assert((all[i] + cr).last() == '\r');
            assert((all[i] + cr).drop_last() =~= all[i]);
        }
    }
}

/// A line of the airport list is one with at least three bars, and its first four fields are
/// what stands between them.
pub proof fn airport_lines_have_three_bars(line: Seq<char>)
    ensures
        is_airport_line(line) <==> line.filter(|c: char| c == '|').len() >= 3,
        joined(parts(line, '|'), '|') == line,
{
    parts_make_up_the_text(line, '|');
}

/// An airport tags an aircraft only where it is close: it is within the limit and no airport
/// within the limit is closer. The limit for tagging is 10 km.
pub proof fn nearest_is_within_the_limit(reach: Seq<Reach>, max_km: Double, i: int, j: int)
    requires
        is_nearest(reach, max_km, i),
        0 <= j < reach.len(),
        !max_km.is_nan(),
    ensures
        !reach[i].dst_km.is_nan(),
        reach[i].dst_km.units() <= max_km.units(),
        reach[i].lat_gap_km.is_nan() || reach[i].lat_gap_km.units() <= max_km.units(),
        !reach[j].dst_km.is_nan() && reach[j].dst_km.units() < reach[i].dst_km.units()
            ==> !reach[j].lat_gap_km.is_nan() && reach[j].lat_gap_km.units() > max_km.units(),
        !reach[j].dst_km.is_nan() && reach[j].dst_km.units() == reach[i].dst_km.units() && j < i
            ==> !reach[j].lat_gap_km.is_nan() && reach[j].lat_gap_km.units() > max_km.units(),
        number(TAG_KM).units() == 10 * pow2(1074),
{
    vstd::arithmetic::power2::lemma2_to64();
    vstd::arithmetic::power2::lemma2_to64_rest();
    lemma_whole_number(TAG_KM, 10, 49);
    if reach[j].within(max_km) {
        assert(reach[i].dst_km.at_most(reach[j].dst_km));
    }
}

} // verus!
